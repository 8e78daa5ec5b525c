//! Replies and drafts: when a reply is allowed, its subject, and the text
//! of a drafted message as it is stored for delivery.
use vstd::prelude::*;
use crate::message::{best_body, extract_best_body, mail_part, mail_parses, parse_message};
use crate::text::{chars_of, lower, lower_chars, push_all, push_range, string_of};
use crate::view::ReplyEligibility;

verus! {

/// Seconds a message must age before it may be answered.
pub const REPLY_DELAY_SECS: i64 = 86400;

/// The age of a message at time `now`.
pub open spec fn age_of(timestamp: i64, now: i64) -> int {
    now as int - timestamp as int
}

/// Whether a message may be answered at `now`: only once it is a day old.
/// Where it may not, `hours_remaining` is 24 less the whole hours of its
/// age, rounded down.
pub fn reply_eligibility(timestamp: i64, now: i64) -> (r: ReplyEligibility)
    ensures
        r.allowed == (age_of(timestamp, now) >= 86400),
        r.allowed ==> r.hours_remaining == 0,
        !r.allowed ==> r.hours_remaining == 24 - age_of(timestamp, now) / 3600,
{
    let age: i128 = now as i128 - timestamp as i128;
    if age >= REPLY_DELAY_SECS as i128 {
        return ReplyEligibility { allowed: true, hours_remaining: 0 };
    }
    let hours: i128 = if age >= 0 {
        (age as u128 / 3600) as i128
    } else {
        let m: u128 = (-age) as u128;
        let c: u128 = (m + 3599) / 3600;
        proof {
            let a = age as int;
            let mi = m as int;
            let ci = c as int;
            assert(mi == -a);
            assert(ci * 3600 <= mi + 3599 < ci * 3600 + 3600) by (nonlinear_arith)
                requires
                    ci == (mi + 3599) / 3600,
                    mi >= 0,
            ;
            assert(a / 3600 == -ci) by (nonlinear_arith)
                requires
                    ci * 3600 <= mi + 3599 < ci * 3600 + 3600,
                    mi == -a,
                    a < 0,
            ;
        }
        -(c as i128)
    };
    proof {
        if age >= 0 {
            assert((age as u128 / 3600) as int == (age as int) / 3600);
        }
        assert(age as int / 3600 < 24);
        assert(age as int / 3600 >= -(0x1_0000_0000_0000_0000int / 3600) - 1) by (nonlinear_arith)
            requires
                age as int >= -0x1_0000_0000_0000_0000int,
        ;
    }
    ReplyEligibility { allowed: false, hours_remaining: (24 - hours) as i64 }
}

/// The subject of a reply: kept where it already begins with "re:" in any
/// case, else prefixed with "Re: ".
pub open spec fn reply_subject_of(subject: Seq<char>) -> Seq<char> {
    let l = lower(subject);
    if l.len() >= 3 && l.subrange(0, 3) == seq!['r', 'e', ':'] {
        subject
    } else {
        seq!['R', 'e', ':', ' '] + subject
    }
}

/// The subject of a reply to a message with this subject.
pub fn reply_subject(subject: &str) -> (r: String)
    ensures
        r@ == reply_subject_of(subject@),
{
    let s = chars_of(subject);
    let l = lower_chars(subject);
    let is_reply = l.len() >= 3 && l[0] == 'r' && l[1] == 'e' && l[2] == ':';
    proof {
        if l@.len() >= 3 && l@.subrange(0, 3) == seq!['r', 'e', ':'] {
            assert(l@.subrange(0, 3)[0] == 'r');
            assert(l@.subrange(0, 3)[1] == 'e');
            assert(l@.subrange(0, 3)[2] == ':');
        }
        if is_reply {
            assert(l@.subrange(0, 3) =~= seq!['r', 'e', ':']);
        }
    }
    if is_reply {
        string_of(s.as_slice())
    } else {
        let mut out: Vec<char> = vec!['R', 'e', ':', ' '];
        push_all(&mut out, s.as_slice());
        string_of(out.as_slice())
    }
}

/// The text of a drafted message as it is stored for delivery.
pub open spec fn draft_text(to: Seq<char>, subject: Seq<char>, body: Seq<char>) -> Seq<char> {
    "To: "@ + to + "\r\nSubject: "@ + subject + "\r\nContent-Type: text/plain; charset=utf-8\r\n\r\n"@
        + body
}

/// Serialises a drafted message: `To` and `Subject` headers, a plain-text
/// UTF-8 content type, a blank line and the body.
pub fn draft_message(to: &str, subject: &str, body: &str) -> (r: String)
    ensures
        r@ == draft_text(to@, subject@, body@),
{
    let mut out = chars_of("To: ");
    push_all(&mut out, chars_of(to).as_slice());
    push_all(&mut out, chars_of("\r\nSubject: ").as_slice());
    push_all(&mut out, chars_of(subject).as_slice());
    push_all(&mut out, chars_of("\r\nContent-Type: text/plain; charset=utf-8\r\n\r\n").as_slice());
    push_all(&mut out, chars_of(body).as_slice());
    string_of(out.as_slice())
}

/// The text to show for a stored message: its best displayable body, or
/// `None` where the bytes are not a message.
pub fn message_body(data: &[u8]) -> (r: Option<String>)
    ensures
        r is Some == mail_parses(data@),
        r matches Some(t) ==> t@ == best_body(mail_part(data@)),
{
    match parse_message(data) {
        Some(p) => Some(extract_best_body(&p)),
        None => None,
    }
}

/// Position of the first newline in `s` from `i` on, or the length of `s`.
pub open spec fn next_newline(s: Seq<char>, i: int) -> int
    decreases s.len() - i,
{
    if i < 0 || i >= s.len() {
        s.len() as int
    } else if s[i] == '\n' {
        i
    } else {
        next_newline(s, i + 1)
    }
}

proof fn lemma_next_newline(s: Seq<char>, i: int)
    requires
        0 <= i <= s.len(),
    ensures
        i <= next_newline(s, i) <= s.len(),
        next_newline(s, i) < s.len() ==> s[next_newline(s, i)] == '\n',
    decreases s.len() - i,
{
    if i < s.len() && s[i] != '\n' {
        lemma_next_newline(s, i + 1);
    }
}

/// The lines of `s` from position `i` on, split as `str::lines` splits
/// them (a newline, or a carriage return and a newline, ends a line; the
/// last line needs no end), each prefixed with "> " and ended with "\n".
pub open spec fn quoted_from(s: Seq<char>, i: int) -> Seq<char>
    decreases s.len() - i,
{
    if i < 0 || i >= s.len() {
        Seq::empty()
    } else {
        let k = next_newline(s, i);
        if k >= s.len() {
            seq!['>', ' '] + s.subrange(i, s.len() as int) + seq!['\n']
        } else if k < i {
            Seq::empty()
        } else {
            let line = if k > i && s[k - 1] == '\r' {
                s.subrange(i, k - 1)
            } else {
                s.subrange(i, k)
            };
            seq!['>', ' '] + line + seq!['\n'] + quoted_from(s, k + 1)
        }
    }
}

/// The text that opens a reply: who wrote when, the quoted lines, and a
/// blank line.
pub open spec fn reply_quote_of(date: Seq<char>, from: Seq<char>, text: Seq<char>) -> Seq<char> {
    "--- Am "@ + date + " schrieb "@ + from + " :\n"@ + quoted_from(text, 0) + "\n"@
}

/// Quotes the text of a message for a reply.
pub fn reply_quote(date_full: &str, from: &str, text: &str) -> (r: String)
    ensures
        r@ == reply_quote_of(date_full@, from@, text@),
{
    let mut out = chars_of("--- Am ");
    push_all(&mut out, chars_of(date_full).as_slice());
    push_all(&mut out, chars_of(" schrieb ").as_slice());
    push_all(&mut out, chars_of(from).as_slice());
    push_all(&mut out, chars_of(" :\n").as_slice());
    let ghost head = out@;
    let s = chars_of(text);
    let n = s.len();
    let mut i: usize = 0;
    while i < n
        invariant
            n == s@.len(),
            i <= n,
            head + quoted_from(s@, 0) == out@ + quoted_from(s@, i as int),
        decreases n - i,
    {
        let mut k: usize = i;
        while k < n && s[k] != '\n'
            invariant
                i <= k <= n == s@.len(),
                next_newline(s@, i as int) == next_newline(s@, k as int),
            decreases n - k,
        {
            k = k + 1;
        }
        proof {
            lemma_next_newline(s@, i as int);
        }
        let ghost before = out@;
        out.push('>');
        out.push(' ');
        if k >= n {
            push_range(&mut out, &s, i, n);
            out.push('\n');
            assert(out@ =~= before + (seq!['>', ' '] + s@.subrange(i as int, n as int) + seq!['\n']));
            i = n;
        } else {
            let end = if k > i && s[k - 1] == '\r' {
                k - 1
            } else {
                k
            };
            push_range(&mut out, &s, i, end);
            out.push('\n');
            assert(out@ =~= before + (seq!['>', ' '] + s@.subrange(i as int, end as int) + seq!['\n']));
            i = k + 1;
        }
    }
    out.push('\n');
    proof {
        reveal_strlit("\n");
    }
    assert(out@ =~= head + quoted_from(s@, 0) + "\n"@);
    string_of(out.as_slice())
}

} // verus!
