//! Turning the files of one folder into records, and collecting the senders
//! seen in them for the contact book.
use vstd::prelude::*;
use crate::address::{parse_from, split_sender};
use crate::marker::{lemma_read_target, path_is_read};
use crate::message::{
    read_moved,
    mail_part,
    mail_parses, parse_message, placeholder_record, record_fields, record_from_part,
    MessageRecord,
};

verus! {

/// One file found in a folder: its path, and its bytes where it could be read.
pub struct StoredFile {
    pub path: String,
    pub data: Option<Vec<u8>>,
}

/// A sender's address and the best display name known for it.
pub struct Contact {
    pub email: String,
    pub name: String,
}

/// What scanning a folder yields.
pub struct ScanResult {
    /// One record per file, in the order the files were listed.
    pub records: Vec<MessageRecord>,
    /// One entry per distinct non-empty sender address, in order of first sight.
    pub contacts: Vec<Contact>,
}

/// Subject of the record that stands for an unreadable file.
pub open spec fn read_error_subject() -> Seq<char> {
    "read error"@
}

/// Subject of the record that stands for a file that is not a message.
pub open spec fn parse_error_subject() -> Seq<char> {
    "could not be parsed"@
}

/// The fields of a stand-in record with this subject.
pub open spec fn placeholder_fields(r: MessageRecord, path: Seq<char>, subject: Seq<char>) -> bool {
    &&& r.path@ == path
    &&& r.subject@ == subject
    &&& r.from@.len() == 0
    &&& r.return_path@.len() == 0
    &&& r.date_full@.len() == 0
    &&& r.date_short@.len() == 0
    &&& r.timestamp == 0
}

/// `r` is the record scanning makes of `f`: a stand-in where the file could
/// not be read or parsed, else the record of the parsed message.
pub open spec fn scanned_record(r: MessageRecord, f: StoredFile) -> bool {
    &&& r.path@ == f.path@
    &&& r.wf()
    &&& match f.data {
        None => placeholder_fields(r, f.path@, read_error_subject()),
        Some(d) => if mail_parses(d@) {
            record_fields(r, f.path@, mail_part(d@))
        } else {
            placeholder_fields(r, f.path@, parse_error_subject())
        },
    }
}

/// The records scanning makes of the files `fs`, one per file, in order.
pub open spec fn scanned_records(rs: Seq<MessageRecord>, fs: Seq<StoredFile>) -> bool {
    &&& rs.len() == fs.len()
    &&& forall|i: int| 0 <= i < fs.len() ==> scanned_record(#[trigger] rs[i], fs[i])
}

/// Index of the entry for `email` among `cs` from `i` on.
pub open spec fn email_index(cs: Seq<(Seq<char>, Seq<char>)>, email: Seq<char>, i: int) -> Option<
    int,
>
    decreases cs.len() - i,
{
    if i < 0 || i >= cs.len() {
        None
    } else if cs[i].0 == email {
        Some(i)
    } else {
        email_index(cs, email, i + 1)
    }
}

/// The contact list after one more `From` value: a new address is added
/// with its name; a known address whose name is still empty takes a
/// non-empty name; nothing else changes.
pub open spec fn add_sender(cs: Seq<(Seq<char>, Seq<char>)>, from: Seq<char>) -> Seq<
    (Seq<char>, Seq<char>),
> {
    let name = split_sender(from).0;
    let email = split_sender(from).1;
    if email.len() == 0 {
        cs
    } else {
        match email_index(cs, email, 0) {
            Some(i) => if cs[i].1.len() == 0 && name.len() > 0 {
                cs.update(i, (email, name))
            } else {
                cs
            },
            None => cs.push((email, name)),
        }
    }
}

/// The contacts collected from a sequence of `From` values, as (address,
/// name) pairs.
pub open spec fn contacts_of(froms: Seq<Seq<char>>) -> Seq<(Seq<char>, Seq<char>)>
    decreases froms.len(),
{
    if froms.len() == 0 {
        Seq::empty()
    } else {
        add_sender(contacts_of(froms.drop_last()), froms.last())
    }
}

/// The contacts as (address, name) pairs.
pub open spec fn contact_pairs(cs: Seq<Contact>) -> Seq<(Seq<char>, Seq<char>)> {
    cs.map_values(|c: Contact| (c.email@, c.name@))
}

/// The `From` values of the records.
pub open spec fn froms(rs: Seq<MessageRecord>) -> Seq<Seq<char>> {
    rs.map_values(|r: MessageRecord| r.from@)
}

/// The paths of the records.
pub open spec fn record_paths(rs: Seq<MessageRecord>) -> Seq<Seq<char>> {
    rs.map_values(|r: MessageRecord| r.path@)
}

/// The paths of the files.
pub open spec fn file_paths(fs: Seq<StoredFile>) -> Seq<Seq<char>> {
    fs.map_values(|f: StoredFile| f.path@)
}

/// Makes the record of one file: a stand-in with subject "read error" where
/// it could not be read, "could not be parsed" where it is no message, and
/// the record of the message otherwise.
pub fn record_for_file(f: &StoredFile) -> (r: MessageRecord)
    ensures
        scanned_record(r, *f),
{
    let path = f.path.clone();
    match &f.data {
        None => placeholder_record(path, "read error"),
        Some(d) => match parse_message(d.as_slice()) {
            Some(p) => record_from_part(path, &p),
            None => placeholder_record(path, "could not be parsed"),
        },
    }
}

/// Adds the sender of one `From` value to the contact list.
pub fn add_contact(contacts: &mut Vec<Contact>, from: &str)
    ensures
        contact_pairs(final(contacts)@) == add_sender(contact_pairs(old(contacts)@), from@),
{
    let ghost cs = contact_pairs(contacts@);
    let (name, email) = parse_from(from);
    if email.as_str().is_empty() {
        return;
    }
    let mut i: usize = 0;
    while i < contacts.len()
        invariant
            i <= contacts@.len(),
            cs == contact_pairs(contacts@),
            cs == contact_pairs(old(contacts)@),
            name@ == split_sender(from@).0,
            email@ == split_sender(from@).1,
            email@.len() > 0,
            email_index(cs, email@, 0) == email_index(cs, email@, i as int),
        decreases contacts.len() - i,
    {
        if contacts[i].email == email {
            assert(cs[i as int] == (contacts@[i as int].email@, contacts@[i as int].name@));
            assert(email_index(cs, email@, i as int) == Some(i as int));
            if contacts[i].name.as_str().is_empty() && !name.as_str().is_empty() {
                let ghost e = email@;
                let ghost n = name@;
                contacts.set(i, Contact { email, name });
                assert(contact_pairs(contacts@) =~= cs.update(i as int, (e, n)));
                assert(add_sender(cs, from@) == cs.update(i as int, (e, n)));
            } else {
                assert(add_sender(cs, from@) == cs);
            }
            return;
        }
        i = i + 1;
    }
    contacts.push(Contact { email, name });
    assert(contact_pairs(contacts@) =~= cs.push((email@, name@)));
}

/// Scans the files of a folder, those under "incoming" before those under
/// "current": one record per file, in that order, and the senders of all
/// records collected as contacts. No single file stops the scan.
pub fn scan_folder(incoming: &Vec<StoredFile>, current: &Vec<StoredFile>) -> (r: ScanResult)
    ensures
        scanned_records(r.records@, incoming@ + current@),
        contact_pairs(r.contacts@) == contacts_of(froms(r.records@)),
        distinct_addresses(contact_pairs(r.contacts@)),
{
    let ghost fs = incoming@ + current@;
    let mut records: Vec<MessageRecord> = Vec::new();
    let mut contacts: Vec<Contact> = Vec::new();
    let mut i: usize = 0;
    while i < incoming.len()
        invariant
            i <= incoming@.len(),
            fs == incoming@ + current@,
            scanned_records(records@, fs.subrange(0, i as int)),
            contact_pairs(contacts@) == contacts_of(froms(records@)),
        decreases incoming.len() - i,
    {
        let rec = record_for_file(&incoming[i]);
        add_contact(&mut contacts, rec.from.as_str());
        let ghost before = records@;
        records.push(rec);
        assert(froms(records@).drop_last() =~= froms(before));
        assert(fs.subrange(0, i + 1) =~= fs.subrange(0, i as int).push(incoming@[i as int]));
        i = i + 1;
    }
    let mut j: usize = 0;
    while j < current.len()
        invariant
            j <= current@.len(),
            fs == incoming@ + current@,
            scanned_records(records@, fs.subrange(0, incoming@.len() + j)),
            contact_pairs(contacts@) == contacts_of(froms(records@)),
        decreases current.len() - j,
    {
        let rec = record_for_file(&current[j]);
        add_contact(&mut contacts, rec.from.as_str());
        let ghost before = records@;
        records.push(rec);
        assert(froms(records@).drop_last() =~= froms(before));
        assert(fs.subrange(0, incoming@.len() + j + 1) =~= fs.subrange(
            0,
            incoming@.len() + j,
        ).push(current@[j as int]));
        j = j + 1;
    }
    assert(fs.subrange(0, fs.len() as int) =~= fs);
    proof {
        lemma_contacts_distinct(froms(records@));
    }
    ScanResult { records, contacts }
}

/// Scanning depends on nothing but the files listed: the records' paths are
/// the listed paths, in the listed order, so two scans of a folder that
/// lists the same files, in whatever order, yield as many records, with
/// the same paths as often.
pub proof fn lemma_rescan_same_paths(
    incoming_a: Seq<StoredFile>,
    current_a: Seq<StoredFile>,
    records_a: Seq<MessageRecord>,
    incoming_b: Seq<StoredFile>,
    current_b: Seq<StoredFile>,
    records_b: Seq<MessageRecord>,
)
    requires
        scanned_records(records_a, incoming_a + current_a),
        scanned_records(records_b, incoming_b + current_b),
        file_paths(incoming_a + current_a).to_multiset() == file_paths(
            incoming_b + current_b,
        ).to_multiset(),
    ensures
        record_paths(records_a) == file_paths(incoming_a + current_a),
        record_paths(records_b) == file_paths(incoming_b + current_b),
        records_a.len() == records_b.len(),
        record_paths(records_a).to_multiset() == record_paths(records_b).to_multiset(),
{
    broadcast use vstd::seq_lib::group_to_multiset_ensures;

    let fa = incoming_a + current_a;
    let fb = incoming_b + current_b;
    assert(record_paths(records_a) =~= file_paths(fa)) by {
        assert forall|i: int| 0 <= i < fa.len() implies record_paths(records_a)[i] == file_paths(
            fa,
        )[i] by {
            assert(scanned_record(records_a[i], fa[i]));
        }
    }
    assert(record_paths(records_b) =~= file_paths(fb)) by {
        assert forall|i: int| 0 <= i < fb.len() implies record_paths(records_b)[i] == file_paths(
            fb,
        )[i] by {
            assert(scanned_record(records_b[i], fb[i]));
        }
    }
    assert(file_paths(fa).to_multiset().len() == file_paths(fa).len());
    assert(file_paths(fb).to_multiset().len() == file_paths(fb).len());
}

/// A record made by the scan and then moved by the read transition is read,
/// and its read flag agrees with the read marker of its new path.
pub proof fn lemma_scan_then_read(f: StoredFile, a: MessageRecord, b: MessageRecord)
    requires
        scanned_record(a, f),
        read_moved(a, b),
    ensures
        b.wf(),
        b.is_read,
        path_is_read(b.path@),
{
    lemma_read_target(a.path@);
}

/// Every address is non-empty and listed once.
pub open spec fn distinct_addresses(cs: Seq<(Seq<char>, Seq<char>)>) -> bool {
    &&& forall|i: int| 0 <= i < cs.len() ==> (#[trigger] cs[i]).0.len() > 0
    &&& forall|i: int, j: int| 0 <= i < j < cs.len() ==> (#[trigger] cs[i]).0 != (#[trigger] cs[j]).0
}

proof fn lemma_email_index(cs: Seq<(Seq<char>, Seq<char>)>, email: Seq<char>, i: int)
    requires
        0 <= i,
    ensures
        email_index(cs, email, i) matches Some(k) ==> i <= k < cs.len() && cs[k].0 == email,
        email_index(cs, email, i) is None ==> forall|k: int| i <= k < cs.len() ==> cs[k].0 != email,
    decreases cs.len() - i,
{
    if i < cs.len() && cs[i].0 != email {
        lemma_email_index(cs, email, i + 1);
    }
}

/// The collected contacts hold one entry per distinct non-empty address.
pub proof fn lemma_contacts_distinct(froms: Seq<Seq<char>>)
    ensures
        distinct_addresses(contacts_of(froms)),
    decreases froms.len(),
{
    if froms.len() > 0 {
        let cs = contacts_of(froms.drop_last());
        lemma_contacts_distinct(froms.drop_last());
        let from = froms.last();
        let email = split_sender(from).1;
        let name = split_sender(from).0;
        lemma_email_index(cs, email, 0);
        if email.len() > 0 {
            match email_index(cs, email, 0) {
                Some(i) => {
                    let ns = add_sender(cs, from);
                    assert forall|a: int| 0 <= a < ns.len() implies (#[trigger] ns[a]).0 == cs[a].0 by {}
                },
                None => {
                    let ns = cs.push((email, name));
                    assert forall|a: int, b: int| 0 <= a < b < ns.len() implies (#[trigger] ns[a]).0
                        != (#[trigger] ns[b]).0 by {
                        if b == cs.len() {
                            assert(cs[a].0 != email);
                        } else {
                            assert(ns[a] == cs[a] && ns[b] == cs[b]);
                        }
                    }
                },
            }
        }
    }
}

} // verus!
