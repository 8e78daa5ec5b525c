//! Parsed messages: their MIME structure, header lookup, the record a
//! message list shows, and the best displayable text of a body.
use vstd::prelude::*;
use crate::html::{stripped_html, strip_html_tags};
use crate::marker::{is_read_path, lemma_read_target, path_is_read, read_target, read_target_path};
use crate::text::{chars_of, contains, contains_exec, lower, lower_chars, occurs_at, occurs_at_exec};

verus! {

/// mailparse's parsed message, carried through unopened.
#[verifier::external_type_specification]
#[verifier::external_body]
pub struct ExParsedMail<'a>(mailparse::ParsedMail<'a>);

/// mailparse's error type, carried through unopened.
#[verifier::external_type_specification]
#[verifier::external_body]
pub struct ExMailParseError(mailparse::MailParseError);

/// Whether `mailparse::parse_mail` accepts these bytes as a message.
pub uninterp spec fn mail_parses(data: Seq<u8>) -> bool;

/// The message `mailparse::parse_mail` reads from these bytes, where it
/// accepts them: headers, decoded bodies and nested parts.
pub uninterp spec fn mail_part(data: Seq<u8>) -> MimePart;

/// The time stamp `mailparse::dateparse` reads from a date header, if any.
pub uninterp spec fn date_value(s: Seq<char>) -> Option<i64>;

/// Relies on `mailparse::dateparse`: the time stamp it reads depends on the
/// text alone.
pub assume_specification[ mailparse::dateparse ](date: &str) -> (r: Result<
    i64,
    mailparse::MailParseError,
>)
    ensures
        r is Ok == date_value(date@) is Some,
        r matches Ok(t) ==> date_value(date@) == Some(t),
;

/// One header of a message part: its name and its decoded value.
pub struct Header {
    pub name: String,
    pub value: String,
}

/// One part of a parsed message: its headers, its decoded body text (none
/// where it could not be decoded) and its nested parts.
pub struct MimePart {
    pub headers: Vec<Header>,
    pub body: Option<String>,
    pub subparts: Vec<MimePart>,
}

/// Converts one part of mailparse's `ParsedMail`: each header's `get_key`
/// and `get_value`, the part's `get_body`, and its `subparts`, taken over
/// one for one.
#[verifier::external_body]
fn mime_part(m: &mailparse::ParsedMail) -> MimePart {
    MimePart {
        headers: m.headers.iter().map(|h| Header { name: h.get_key(), value: h.get_value() }).collect(),
        body: m.get_body().ok(),
        subparts: m.subparts.iter().map(mime_part).collect(),
    }
}

/// Relies on `mailparse::parse_mail`: whether it accepts the bytes, and the
/// message it reads from them, depend on the bytes alone.
#[verifier::external_body]
fn parse_mail_bytes(data: &[u8]) -> (r: Option<MimePart>)
    ensures
        r is Some == mail_parses(data@),
        r matches Some(p) ==> p == mail_part(data@),
{
    mailparse::parse_mail(data).ok().map(|m| mime_part(&m))
}

/// Parses the raw bytes of one stored message; `None` where they are not a
/// message at all.
pub fn parse_message(data: &[u8]) -> (r: Option<MimePart>)
    ensures
        r is Some == mail_parses(data@),
        r matches Some(p) ==> p == mail_part(data@),
{
    parse_mail_bytes(data)
}

/// Two header names that are equal but for ASCII case.
pub open spec fn same_name(a: Seq<char>, b: Seq<char>) -> bool {
    a.len() == b.len() && occurs_at(a, b, 0, true)
}

/// The value of the first header from index `i` on whose name matches.
pub open spec fn header_from(hs: Seq<Header>, name: Seq<char>, i: int) -> Option<Seq<char>>
    decreases hs.len() - i,
{
    if i < 0 || i >= hs.len() {
        None
    } else if same_name(hs[i].name@, name) {
        Some(hs[i].value@)
    } else {
        header_from(hs, name, i + 1)
    }
}

/// The value of the first header with this name, ASCII case ignored.
pub open spec fn header_value(hs: Seq<Header>, name: Seq<char>) -> Option<Seq<char>> {
    header_from(hs, name, 0)
}

/// The value of a header, or `default` where it is missing.
pub open spec fn header_or(hs: Seq<Header>, name: Seq<char>, default: Seq<char>) -> Seq<char> {
    match header_value(hs, name) {
        Some(v) => v,
        None => default,
    }
}

/// Looks up the first header with this name, ASCII case ignored.
pub fn find_header(headers: &Vec<Header>, name: &str) -> (r: Option<String>)
    ensures
        r matches Some(v) ==> header_value(headers@, name@) == Some(v@),
        r is None ==> header_value(headers@, name@) is None,
{
    let key = chars_of(name);
    let mut i: usize = 0;
    while i < headers.len()
        invariant
            i <= headers@.len(),
            key@ == name@,
            header_value(headers@, name@) == header_from(headers@, name@, i as int),
        decreases headers.len() - i,
    {
        let n = chars_of(headers[i].name.as_str());
        if n.len() == key.len() && occurs_at_exec(&n, &key, 0, true) {
            return Some(headers[i].value.clone());
        }
        i = i + 1;
    }
    None
}

/// The value of a header, or `default` where it is missing.
pub fn header_or_default(headers: &Vec<Header>, name: &str, default: &str) -> (r: String)
    ensures
        r@ == header_or(headers@, name@, default@),
{
    match find_header(headers, name) {
        Some(v) => v,
        None => default.to_owned(),
    }
}

/// Whether the part's `Content-Type` header, lower-cased, holds `kind`.
pub open spec fn has_type(p: MimePart, kind: Seq<char>) -> bool {
    contains(lower(header_or(p.headers@, "Content-Type"@, Seq::empty())), kind)
}

/// The part's decoded body, empty where it could not be decoded.
pub open spec fn body_text(p: MimePart) -> Seq<char> {
    match p.body {
        Some(b) => b@,
        None => Seq::empty(),
    }
}

/// Index of the first part from `i` on whose content type holds `kind`.
pub open spec fn first_of_type(ps: Seq<MimePart>, kind: Seq<char>, i: int) -> Option<int>
    decreases ps.len() - i,
{
    if i < 0 || i >= ps.len() {
        None
    } else if has_type(ps[i], kind) {
        Some(i)
    } else {
        first_of_type(ps, kind, i + 1)
    }
}

/// Text shown where a message holds nothing displayable.
pub open spec fn no_text_notice() -> Seq<char> {
    "no displayable text found"@
}

/// The text to show for a part: a single part's own body (reduced to text
/// where it is HTML); else the first plain-text subpart; else the first
/// HTML subpart, reduced to text; else the first subpart with non-empty
/// text of its own; else a notice.
pub open spec fn best_body(p: MimePart) -> Seq<char>
    decreases p, 1int, 0int,
{
    if p.subparts@.len() == 0 {
        if has_type(p, "text/html"@) {
            stripped_html(body_text(p))
        } else {
            body_text(p)
        }
    } else {
        match first_of_type(p.subparts@, "text/plain"@, 0) {
            Some(i) => body_text(p.subparts@[i]),
            None => match first_of_type(p.subparts@, "text/html"@, 0) {
                Some(i) => stripped_html(body_text(p.subparts@[i])),
                None => nested_body(p, 0),
            },
        }
    }
}

/// The first non-empty text among the subparts from `i` on, or the notice.
pub open spec fn nested_body(p: MimePart, i: int) -> Seq<char>
    decreases p, 0int, p.subparts@.len() - i,
{
    if i < 0 || i >= p.subparts@.len() {
        no_text_notice()
    } else {
        let t = best_body(p.subparts@[i]);
        if t.len() > 0 {
            t
        } else {
            nested_body(p, i + 1)
        }
    }
}

/// Whether the part's `Content-Type` header, lower-cased, holds `kind`.
pub fn part_has_type(p: &MimePart, kind: &str) -> (r: bool)
    ensures
        r == has_type(*p, kind@),
{
    let ct = header_or_default(&p.headers, "Content-Type", "");
    let ct = lower_chars(ct.as_str());
    let k = chars_of(kind);
    proof {
        reveal_strlit("");
        assert(""@ =~= Seq::<char>::empty());
    }
    contains_exec(&ct, &k)
}

fn part_body(p: &MimePart) -> (r: String)
    ensures
        r@ == body_text(*p),
{
    match &p.body {
        Some(b) => b.clone(),
        None => String::new(),
    }
}

fn first_of_type_exec(ps: &Vec<MimePart>, kind: &str) -> (r: Option<usize>)
    ensures
        r matches Some(i) ==> first_of_type(ps@, kind@, 0) == Some(i as int) && i < ps@.len(),
        r is None ==> first_of_type(ps@, kind@, 0) is None,
{
    let mut i: usize = 0;
    while i < ps.len()
        invariant
            i <= ps@.len(),
            first_of_type(ps@, kind@, 0) == first_of_type(ps@, kind@, i as int),
        decreases ps.len() - i,
    {
        if part_has_type(&ps[i], kind) {
            return Some(i);
        }
        i = i + 1;
    }
    None
}

/// The text to show for a message: prefers plain text, then HTML reduced to
/// text, then the text of nested parts, else a notice.
pub fn extract_best_body(p: &MimePart) -> (r: String)
    ensures
        r@ == best_body(*p),
    decreases p,
{
    if p.subparts.len() == 0 {
        let b = part_body(p);
        if part_has_type(p, "text/html") {
            return strip_html_tags(b.as_str());
        }
        return b;
    }
    if let Some(i) = first_of_type_exec(&p.subparts, "text/plain") {
        return part_body(&p.subparts[i]);
    }
    if let Some(i) = first_of_type_exec(&p.subparts, "text/html") {
        let b = part_body(&p.subparts[i]);
        return strip_html_tags(b.as_str());
    }
    let mut i: usize = 0;
    while i < p.subparts.len()
        invariant
            i <= p.subparts@.len(),
            p.subparts@.len() > 0,
            first_of_type(p.subparts@, "text/plain"@, 0) is None,
            first_of_type(p.subparts@, "text/html"@, 0) is None,
            best_body(*p) == nested_body(*p, i as int),
        decreases p.subparts.len() - i,
    {
        let t = extract_best_body(&p.subparts[i]);
        if !t.as_str().is_empty() {
            return t;
        }
        i = i + 1;
    }
    "no displayable text found".to_owned()
}

/// One stored message as the message list shows it.
pub struct MessageRecord {
    /// Where the message's file lies; its name carries the read marker.
    pub path: String,
    /// Seconds since the epoch, read from the `Date` header; 0 where unreadable.
    pub timestamp: i64,
    /// Short form of the date for the list; the raw header until a caller
    /// that knows the local time zone formats it.
    pub date_short: String,
    /// The raw `Date` header.
    pub date_full: String,
    /// The raw `From` header.
    pub from: String,
    /// The raw `Return-Path` header.
    pub return_path: String,
    /// The raw `Subject` header.
    pub subject: String,
    /// Whether the message has been read; always agrees with `path`.
    pub is_read: bool,
}

impl MessageRecord {
    /// The record agrees with its path about whether it was read.
    pub open spec fn wf(&self) -> bool {
        self.is_read == path_is_read(self.path@)
    }
}

/// Subject shown where a message has none.
pub open spec fn no_subject() -> Seq<char> {
    "no subject"@
}

/// Sender shown where a message names none.
pub open spec fn unknown_sender() -> Seq<char> {
    "unknown"@
}

/// The time stamp of a date header: what the date parser reads, else 0.
pub open spec fn timestamp_of(date: Seq<char>) -> i64 {
    match date_value(date) {
        Some(t) => t,
        None => 0,
    }
}

/// The record of a parsed message stored at `path`.
pub open spec fn record_fields(r: MessageRecord, path: Seq<char>, p: MimePart) -> bool {
    let date = header_or(p.headers@, "Date"@, Seq::empty());
    &&& r.path@ == path
    &&& r.subject@ == header_or(p.headers@, "Subject"@, no_subject())
    &&& r.from@ == header_or(p.headers@, "From"@, unknown_sender())
    &&& r.return_path@ == header_or(p.headers@, "Return-Path"@, Seq::empty())
    &&& r.date_full@ == date
    &&& r.date_short@ == date
    &&& r.timestamp == timestamp_of(date)
    &&& r.is_read == path_is_read(path)
}

/// Builds the record of a parsed message stored at `path`: the four headers
/// (with placeholders where missing), the time stamp of its date, and the
/// read state that its path encodes.
pub fn record_from_part(path: String, p: &MimePart) -> (r: MessageRecord)
    ensures
        record_fields(r, path@, *p),
        r.wf(),
{
    proof {
        reveal_strlit("");
        assert(""@ =~= Seq::<char>::empty());
    }
    let subject = header_or_default(&p.headers, "Subject", "no subject");
    let from = header_or_default(&p.headers, "From", "unknown");
    let return_path = header_or_default(&p.headers, "Return-Path", "");
    let date_full = header_or_default(&p.headers, "Date", "");
    let timestamp = match mailparse::dateparse(date_full.as_str()) {
        Ok(t) => t,
        Err(_) => 0,
    };
    let is_read = is_read_path(path.as_str());
    MessageRecord {
        path,
        timestamp,
        date_short: date_full.clone(),
        date_full,
        from,
        return_path,
        subject,
        is_read,
    }
}

/// The record that stands for a message that could not be read or parsed:
/// `subject` tells which; nothing else is known but the path and the read
/// state it encodes.
pub fn placeholder_record(path: String, subject: &str) -> (r: MessageRecord)
    ensures
        r.path@ == path@,
        r.subject@ == subject@,
        r.from@.len() == 0,
        r.return_path@.len() == 0,
        r.date_full@.len() == 0,
        r.date_short@.len() == 0,
        r.timestamp == 0,
        r.wf(),
{
    let is_read = is_read_path(path.as_str());
    MessageRecord {
        path,
        timestamp: 0,
        date_short: String::new(),
        date_full: String::new(),
        from: String::new(),
        return_path: String::new(),
        subject: subject.to_owned(),
        is_read,
    }
}

/// `b` is `a` after the read transition: moved to the read path and marked
/// read, every other field kept.
pub open spec fn read_moved(a: MessageRecord, b: MessageRecord) -> bool {
    &&& b.path@ == read_target(a.path@)
    &&& b.is_read
    &&& b.timestamp == a.timestamp
    &&& b.date_short@ == a.date_short@
    &&& b.date_full@ == a.date_full@
    &&& b.from@ == a.from@
    &&& b.return_path@ == a.return_path@
    &&& b.subject@ == a.subject@
}

/// Applies the read transition to a record whose file has been renamed to
/// its read path: path and read flag change together.
pub fn mark_read(rec: &mut MessageRecord)
    ensures
        read_moved(*old(rec), *final(rec)),
        final(rec).wf(),
{
    let to = read_target_path(rec.path.as_str());
    proof {
        lemma_read_target(rec.path@);
    }
    rec.path = to;
    rec.is_read = true;
}

/// The read transition is idempotent: applied a second time it leaves the
/// path as the first left it, and the record stays read.
pub proof fn lemma_read_idempotent(a: MessageRecord, b: MessageRecord, c: MessageRecord)
    requires
        read_moved(a, b),
        read_moved(b, c),
    ensures
        c.path@ == b.path@,
        b.is_read && c.is_read,
        b.wf() && c.wf(),
{
    lemma_read_target(a.path@);
    lemma_read_target(b.path@);
}

} // verus!
