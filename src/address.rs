//! Sender addresses of the form `Display Name <user@host>`.
use vstd::prelude::*;
use crate::text::{
    chars_of, contains, contains_exec, find_from, find_from_exec, lower, lower_chars, push_all,
    push_range, string_of, trim, trim_vec,
};

verus! {

/// `s` with every occurrence of `c` removed.
pub open spec fn without_char(s: Seq<char>, c: char) -> Seq<char>
    decreases s.len(),
{
    if s.len() == 0 {
        Seq::empty()
    } else if s.last() == c {
        without_char(s.drop_last(), c)
    } else {
        without_char(s.drop_last(), c) + seq![s.last()]
    }
}

/// The display name and the address in a `From`-style value. Where a `<` is
/// followed later by a `>`, the name is the text before the `<` without
/// double quotes, the address the text between the two, both trimmed;
/// otherwise the name is empty and the address is the whole value, trimmed.
pub open spec fn split_sender(s: Seq<char>) -> (Seq<char>, Seq<char>) {
    match find_from(s, seq!['<'], 0, false) {
        Some(i) => match find_from(s, seq!['>'], i + 1, false) {
            Some(j) => (
                trim(without_char(s.subrange(0, i), '"')),
                trim(s.subrange(i + 1, j)),
            ),
            None => (Seq::empty(), trim(s)),
        },
        None => (Seq::empty(), trim(s)),
    }
}

fn without_char_exec(s: &Vec<char>, from: usize, to: usize, c: char) -> (r: Vec<char>)
    requires
        from <= to <= s@.len(),
    ensures
        r@ == without_char(s@.subrange(from as int, to as int), c),
{
    let mut out: Vec<char> = Vec::new();
    let mut k: usize = from;
    assert(s@.subrange(from as int, from as int) =~= Seq::<char>::empty());
    while k < to
        invariant
            from <= k <= to <= s@.len(),
            out@ == without_char(s@.subrange(from as int, k as int), c),
        decreases to - k,
    {
        assert(s@.subrange(from as int, k + 1).drop_last() =~= s@.subrange(from as int, k as int));
        if s[k] != c {
            out.push(s[k]);
        }
        k = k + 1;
    }
    out
}

/// Splits a `From` value into its display name and its address.
pub fn parse_from(from: &str) -> (r: (String, String))
    ensures
        r.0@ == split_sender(from@).0,
        r.1@ == split_sender(from@).1,
{
    let s = chars_of(from);
    let lt = vec!['<'];
    let gt = vec!['>'];
    assert(lt@ =~= seq!['<']);
    assert(gt@ =~= seq!['>']);
    if let Some(i) = find_from_exec(&s, &lt, 0, false) {
        proof {
            crate::text::lemma_find_from_props(s@, lt@, 0, false);
        }
        if let Some(j) = find_from_exec(&s, &gt, i + 1, false) {
            proof {
                crate::text::lemma_find_from_props(s@, gt@, i + 1, false);
            }
            let name = without_char_exec(&s, 0, i, '"');
            let name = trim_vec(&name);
            let mut addr: Vec<char> = Vec::new();
            push_range(&mut addr, &s, i + 1, j);
            let addr = trim_vec(&addr);
            return (string_of(name.as_slice()), string_of(addr.as_slice()));
        }
    }
    let whole = trim_vec(&s);
    (String::new(), string_of(whole.as_slice()))
}

/// The address line for writing to a contact: `Name <address>`, or the
/// bare address where the name is empty.
pub open spec fn recipient_of(name: Seq<char>, email: Seq<char>) -> Seq<char> {
    if name.len() == 0 {
        email
    } else {
        name + seq![' ', '<'] + email + seq!['>']
    }
}

/// The address line for writing to a contact.
pub fn recipient(name: &str, email: &str) -> (r: String)
    ensures
        r@ == recipient_of(name@, email@),
{
    let e = chars_of(email);
    if name.is_empty() {
        return string_of(e.as_slice());
    }
    let mut out = chars_of(name);
    out.push(' ');
    out.push('<');
    push_all(&mut out, e.as_slice());
    out.push('>');
    assert(out@ =~= recipient_of(name@, email@));
    string_of(out.as_slice())
}

/// Whether a contact passes the address-book search: an empty query passes
/// everything; otherwise the lower-cased query must stand in the lower-cased
/// `name address` line.
pub open spec fn contact_matches_spec(name: Seq<char>, email: Seq<char>, query: Seq<char>) -> bool {
    query.len() == 0 || contains(lower(name + seq![' '] + email), lower(query))
}

/// Whether a contact passes the address-book search.
pub fn contact_matches(name: &str, email: &str, query: &str) -> (r: bool)
    ensures
        r == contact_matches_spec(name@, email@, query@),
{
    if query.is_empty() {
        return true;
    }
    let mut line = chars_of(name);
    line.push(' ');
    push_all(&mut line, chars_of(email).as_slice());
    assert(line@ =~= name@ + seq![' '] + email@);
    let line_s = string_of(line.as_slice());
    let l = lower_chars(line_s.as_str());
    let q = lower_chars(query);
    contains_exec(&l, &q)
}

} // verus!
