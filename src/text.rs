//! Character-sequence helpers shared by the parsers: search, replacement,
//! whitespace trimming and letter-by-letter lower-casing.
use vstd::prelude::*;

verus! {

/// Unicode `White_Space`, as `char::is_whitespace` documents it.
pub open spec fn is_ws(c: char) -> bool {
    ||| ('\t' <= c && c <= '\r')
    ||| c == ' '
    ||| c == '\u{85}'
    ||| c == '\u{a0}'
    ||| c == '\u{1680}'
    ||| ('\u{2000}' <= c && c <= '\u{200a}')
    ||| c == '\u{2028}'
    ||| c == '\u{2029}'
    ||| c == '\u{202f}'
    ||| c == '\u{205f}'
    ||| c == '\u{3000}'
}

/// Whether a character is whitespace.
pub fn is_ws_char(c: char) -> (r: bool)
    ensures
        r == is_ws(c),
{
    ('\t' <= c && c <= '\r') || c == ' ' || c == '\u{85}' || c == '\u{a0}' || c == '\u{1680}'
        || ('\u{2000}' <= c && c <= '\u{200a}') || c == '\u{2028}' || c == '\u{2029}' || c
        == '\u{202f}' || c == '\u{205f}' || c == '\u{3000}'
}

/// Leading whitespace removed.
pub open spec fn trim_start(s: Seq<char>) -> Seq<char>
    decreases s.len(),
{
    if s.len() > 0 && is_ws(s[0]) {
        trim_start(s.drop_first())
    } else {
        s
    }
}

/// Trailing whitespace removed.
pub open spec fn trim_end(s: Seq<char>) -> Seq<char>
    decreases s.len(),
{
    if s.len() > 0 && is_ws(s.last()) {
        trim_end(s.drop_last())
    } else {
        s
    }
}

/// Whitespace removed at both ends, as `str::trim` does.
pub open spec fn trim(s: Seq<char>) -> Seq<char> {
    trim_end(trim_start(s))
}

/// Whether `s` holds nothing but whitespace.
pub open spec fn all_ws(s: Seq<char>) -> bool {
    forall|i: int| 0 <= i < s.len() ==> is_ws(#[trigger] s[i])
}

/// ASCII letters folded to lower case, every other character kept.
pub open spec fn ascii_fold(c: char) -> u32 {
    if 'A' <= c && c <= 'Z' {
        (c as u32 + 32) as u32
    } else {
        c as u32
    }
}

/// Character equality, exact or ASCII-case-insensitive.
pub open spec fn char_eq(a: char, b: char, fold: bool) -> bool {
    if fold {
        ascii_fold(a) == ascii_fold(b)
    } else {
        a == b
    }
}

/// `p` stands in `s` at position `i`.
pub open spec fn occurs_at(s: Seq<char>, p: Seq<char>, i: int, fold: bool) -> bool {
    &&& 0 <= i
    &&& i + p.len() <= s.len()
    &&& forall|k: int| 0 <= k < p.len() ==> char_eq(#[trigger] s[i + k], p[k], fold)
}

/// The first position at or after `i` where `p` stands in `s`.
pub open spec fn find_from(s: Seq<char>, p: Seq<char>, i: int, fold: bool) -> Option<int>
    decreases s.len() - i,
{
    if i < 0 || i + p.len() > s.len() {
        None
    } else if occurs_at(s, p, i, fold) {
        Some(i)
    } else {
        find_from(s, p, i + 1, fold)
    }
}

/// Whether `p` stands anywhere in `s` (exact match).
pub open spec fn contains(s: Seq<char>, p: Seq<char>) -> bool {
    exists|i: int| occurs_at(s, p, i, false)
}

/// Every non-overlapping occurrence of `p` replaced by `r`, left to right,
/// as `str::replace` does for a non-empty pattern.
pub open spec fn replaced(s: Seq<char>, p: Seq<char>, r: Seq<char>) -> Seq<char>
    decreases s.len(),
{
    if p.len() == 0 || s.len() < p.len() {
        s
    } else if s.subrange(0, p.len() as int) == p {
        r + replaced(s.subrange(p.len() as int, s.len() as int), p, r)
    } else {
        seq![s[0]] + replaced(s.drop_first(), p, r)
    }
}

/// What `str::to_lowercase` returns for a string.
pub uninterp spec fn lower(s: Seq<char>) -> Seq<char>;

/// The characters of a string, in order.
pub(crate) fn chars_of(s: &str) -> (r: Vec<char>)
    ensures
        r@ == s@,
{
    broadcast use vstd::string::axiom_spec_iter;

    let mut out: Vec<char> = Vec::new();
    for c in it: s.chars()
        invariant
            it.seq() == s@,
            out@ == it.seq().subrange(0, it.index() as int),
    {
        out.push(c);
        assert(out@ =~= it.seq().subrange(0, it.index() + 1));
    }
    assert(out@ =~= s@);
    out
}

/// Relies on `String: FromIterator<char>`: the string made of these characters.
#[verifier::external_body]
pub(crate) fn string_of(v: &[char]) -> (r: String)
    ensures
        r@ == v@,
{
    v.iter().collect()
}

/// Relies on `str::to_lowercase`: the result depends on the characters alone.
#[verifier::external_body]
fn to_lower(s: &str) -> (r: String)
    ensures
        r@ == lower(s@),
{
    s.to_lowercase()
}

/// Lower-cases a string as `str::to_lowercase` does.
pub fn lowercase(s: &str) -> (r: String)
    ensures
        r@ == lower(s@),
{
    to_lower(s)
}

/// The characters of a string, lower-cased.
pub fn lower_chars(s: &str) -> (r: Vec<char>)
    ensures
        r@ == lower(s@),
{
    let l = to_lower(s);
    chars_of(l.as_str())
}

/// Compares two characters, exactly or without regard to ASCII case.
pub fn char_eq_exec(a: char, b: char, fold: bool) -> (r: bool)
    ensures
        r == char_eq(a, b, fold),
{
    if fold {
        let x: u32 = if 'A' <= a && a <= 'Z' {
            a as u32 + 32
        } else {
            a as u32
        };
        let y: u32 = if 'A' <= b && b <= 'Z' {
            b as u32 + 32
        } else {
            b as u32
        };
        x == y
    } else {
        a == b
    }
}

/// Whether `p` stands in `s` at position `i`.
pub fn occurs_at_exec(s: &Vec<char>, p: &Vec<char>, i: usize, fold: bool) -> (r: bool)
    ensures
        r == occurs_at(s@, p@, i as int, fold),
{
    if i > s.len() || p.len() > s.len() - i {
        return false;
    }
    let mut k: usize = 0;
    while k < p.len()
        invariant
            i + p.len() <= s.len(),
            k <= p.len(),
            forall|m: int| 0 <= m < k ==> char_eq(#[trigger] s@[i + m], p@[m], fold),
        decreases p.len() - k,
    {
        if !char_eq_exec(s[i + k], p[k], fold) {
            return false;
        }
        k = k + 1;
    }
    true
}

/// The first position at or after `start` where `p` stands in `s`.
pub fn find_from_exec(s: &Vec<char>, p: &Vec<char>, start: usize, fold: bool) -> (r: Option<
    usize,
>)
    ensures
        r matches Some(j) ==> find_from(s@, p@, start as int, fold) == Some(j as int),
        r is None ==> find_from(s@, p@, start as int, fold) is None,
{
    let mut i = start;
    while i <= s.len() && p.len() <= s.len() - i
        invariant
            start <= i,
            find_from(s@, p@, start as int, fold) == find_from(s@, p@, i as int, fold),
        decreases s.len() + 1 - i,
    {
        if occurs_at_exec(s, p, i, fold) {
            return Some(i);
        }
        i = i + 1;
    }
    None
}

/// The position found is an occurrence, and none comes before it.
pub proof fn lemma_find_from_props(s: Seq<char>, p: Seq<char>, i: int, fold: bool)
    requires
        0 <= i,
    ensures
        find_from(s, p, i, fold) matches Some(j) ==> i <= j && occurs_at(s, p, j, fold) && forall|
            k: int,
        | i <= k < j ==> !occurs_at(s, p, k, fold),
        find_from(s, p, i, fold) is None ==> forall|k: int|
            i <= k ==> !occurs_at(s, p, k, fold),
    decreases s.len() - i,
{
    if i < 0 || i + p.len() > s.len() {
        assert forall|k: int| i <= k implies !occurs_at(s, p, k, fold) by {}
    } else if occurs_at(s, p, i, fold) {
    } else {
        lemma_find_from_props(s, p, i + 1, fold);
    }
}

/// Appends the characters of `src` to `out`.
pub fn push_all(out: &mut Vec<char>, src: &[char])
    ensures
        final(out)@ == old(out)@ + src@,
{
    let ghost start = out@;
    let mut j: usize = 0;
    while j < src.len()
        invariant
            j <= src.len(),
            out@ == start + src@.subrange(0, j as int),
        decreases src.len() - j,
    {
        out.push(src[j]);
        j = j + 1;
        assert(out@ =~= start + src@.subrange(0, j as int));
    }
    assert(src@.subrange(0, src@.len() as int) =~= src@);
}

/// Appends `s[from..to]` to `out`.
pub fn push_range(out: &mut Vec<char>, s: &Vec<char>, from: usize, to: usize)
    requires
        from <= to <= s@.len(),
    ensures
        final(out)@ == old(out)@ + s@.subrange(from as int, to as int),
{
    let ghost start = out@;
    let mut j: usize = from;
    while j < to
        invariant
            from <= j <= to <= s@.len(),
            out@ == start + s@.subrange(from as int, j as int),
        decreases to - j,
    {
        out.push(s[j]);
        j = j + 1;
        assert(out@ =~= start + s@.subrange(from as int, j as int));
    }
}

/// Whether `p` stands anywhere in `s`.
pub fn contains_exec(s: &Vec<char>, p: &Vec<char>) -> (r: bool)
    ensures
        r == contains(s@, p@),
{
    let f = find_from_exec(s, p, 0, false);
    proof {
        lemma_find_from_props(s@, p@, 0, false);
    }
    f.is_some()
}

/// Every non-overlapping occurrence of `p` in `s` replaced by `r`.
pub fn replace_all(s: &Vec<char>, p: &[char], r: &[char]) -> (out: Vec<char>)
    ensures
        out@ == replaced(s@, p@, r@),
{
    let mut out: Vec<char> = Vec::new();
    if p.len() == 0 {
        push_all(&mut out, s.as_slice());
        return out;
    }
    let n = s.len();
    let mut i: usize = 0;
    assert(s@.subrange(0, n as int) =~= s@);
    assert(out@ + s@ =~= s@);
    while i < n && p.len() <= n - i
        invariant
            n == s@.len(),
            i <= n,
            p@.len() > 0,
            replaced(s@, p@, r@) == out@ + replaced(s@.subrange(i as int, n as int), p@, r@),
        decreases n - i,
    {
        let ghost t = s@.subrange(i as int, n as int);
        let mut hit = true;
        let mut k: usize = 0;
        while hit && k < p.len()
            invariant
                n == s@.len(),
                k <= p@.len(),
                p@.len() <= n - i,
                hit ==> forall|m: int| 0 <= m < k ==> s@[i + m] == #[trigger] p@[m],
                !hit ==> k < p@.len() && s@[i + k] != p@[k as int],
            decreases p.len() - k + (if hit { 1int } else { 0int }),
        {
            if s[i + k] != p[k] {
                hit = false;
            } else {
                k = k + 1;
            }
        }
        if hit {
            assert(t.subrange(0, p@.len() as int) =~= p@);
            assert(t.subrange(p@.len() as int, t.len() as int) =~= s@.subrange(
                i + p@.len(),
                n as int,
            ));
            let ghost before = out@;
            push_all(&mut out, r);
            i = i + p.len();
            assert(before + (r@ + replaced(s@.subrange(i as int, n as int), p@, r@)) =~= out@
                + replaced(s@.subrange(i as int, n as int), p@, r@));
        } else {
            assert(t.subrange(0, p@.len() as int) != p@) by {
                assert(t.subrange(0, p@.len() as int)[k as int] == s@[i + k]);
            }
            assert(t.drop_first() =~= s@.subrange(i + 1, n as int));
            let ghost before = out@;
            out.push(s[i]);
            i = i + 1;
            assert(before + (seq![t[0]] + replaced(s@.subrange(i as int, n as int), p@, r@))
                =~= out@ + replaced(s@.subrange(i as int, n as int), p@, r@));
        }
    }
    let ghost rest = s@.subrange(i as int, n as int);
    assert(replaced(rest, p@, r@) == rest);
    push_range(&mut out, s, i, n);
    out
}

/// Leading whitespace trimming skips a whitespace character.
pub proof fn lemma_trim_start_step(s: Seq<char>, a: int)
    requires
        0 <= a < s.len(),
        is_ws(s[a]),
    ensures
        trim_start(s.subrange(a, s.len() as int)) == trim_start(s.subrange(a + 1, s.len() as int)),
{
    assert(s.subrange(a, s.len() as int).drop_first() =~= s.subrange(a + 1, s.len() as int));
}

/// Whitespace removed at both ends.
pub fn trim_vec(s: &Vec<char>) -> (r: Vec<char>)
    ensures
        r@ == trim(s@),
{
    let n = s.len();
    let mut a: usize = 0;
    assert(s@.subrange(0, n as int) =~= s@);
    while a < n && is_ws_char(s[a])
        invariant
            a <= n == s@.len(),
            trim_start(s@) == trim_start(s@.subrange(a as int, n as int)),
        decreases n - a,
    {
        proof {
            lemma_trim_start_step(s@, a as int);
        }
        a = a + 1;
    }
    let ghost mid = s@.subrange(a as int, n as int);
    assert(trim_start(mid) == mid);
    let mut b: usize = n;
    assert(mid.subrange(0, (b - a) as int) =~= mid);
    while b > a && is_ws_char(s[b - 1])
        invariant
            a <= b <= n == s@.len(),
            mid == s@.subrange(a as int, n as int),
            trim_end(mid) == trim_end(s@.subrange(a as int, b as int)),
        decreases b - a,
    {
        assert(s@.subrange(a as int, b as int).drop_last() =~= s@.subrange(a as int, b - 1));
        b = b - 1;
    }
    let mut out: Vec<char> = Vec::new();
    push_range(&mut out, s, a, b);
    assert(out@ =~= s@.subrange(a as int, b as int));
    out
}

/// Whether `s` holds nothing but whitespace.
pub fn all_ws_exec(s: &Vec<char>) -> (r: bool)
    ensures
        r == all_ws(s@),
{
    let mut i: usize = 0;
    while i < s.len()
        invariant
            i <= s.len(),
            forall|k: int| 0 <= k < i ==> is_ws(#[trigger] s@[k]),
        decreases s.len() - i,
    {
        if !is_ws_char(s[i]) {
            return false;
        }
        i = i + 1;
    }
    true
}

} // verus!
