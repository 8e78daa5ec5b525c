//! The read marker in a stored message's file name, `<id>[:2,<flags>]`, and
//! the paths a message moves to when it is read or archived.
use vstd::prelude::*;
use crate::text::{chars_of, find_from, find_from_exec, lemma_find_from_props, occurs_at, push_range, string_of};

verus! {

/// The marker that opens the flag suffix of a file name.
pub open spec fn info_mark() -> Seq<char> {
    seq![':', '2', ',']
}

/// The flag that marks a message as read.
pub open spec fn read_flag() -> char {
    'S'
}

/// Position of the last `c` in `s`, or -1.
pub open spec fn last_index_of(s: Seq<char>, c: char) -> int
    decreases s.len(),
{
    if s.len() == 0 {
        -1
    } else if s.last() == c {
        s.len() - 1
    } else {
        last_index_of(s.drop_last(), c)
    }
}

/// The file name of a path: what follows its last `/`.
pub open spec fn file_name(p: Seq<char>) -> Seq<char> {
    p.subrange(last_index_of(p, '/') + 1, p.len() as int)
}

/// Whether a file name carries the flag suffix with the read flag in it.
pub open spec fn name_is_read(name: Seq<char>) -> bool {
    match find_from(name, info_mark(), 0, false) {
        Some(k) => name.subrange(k + 3, name.len() as int).contains(read_flag()),
        None => false,
    }
}

/// Whether a path names a message that has been read.
pub open spec fn path_is_read(p: Seq<char>) -> bool {
    name_is_read(file_name(p))
}

/// The file name with the read flag set: `:2,S` appended where there is no
/// flag suffix, `S` appended to flags that lack it, unchanged otherwise.
pub open spec fn read_name(name: Seq<char>) -> Seq<char> {
    match find_from(name, info_mark(), 0, false) {
        None => name + seq![':', '2', ',', 'S'],
        Some(k) => if name.subrange(k + 3, name.len() as int).contains(read_flag()) {
            name
        } else {
            name + seq![read_flag()]
        },
    }
}

/// The directory a read message belongs in: a directory named `new` is
/// replaced by its sibling `cur`, any other is kept.
pub open spec fn read_dir(dir: Seq<char>) -> Seq<char> {
    let m = last_index_of(dir, '/');
    if dir.subrange(m + 1, dir.len() as int) == seq!['n', 'e', 'w'] {
        dir.subrange(0, m + 1) + seq!['c', 'u', 'r']
    } else {
        dir
    }
}

/// Where a message is moved to when it is marked read.
pub open spec fn read_target(p: Seq<char>) -> Seq<char> {
    let k = last_index_of(p, '/');
    if k < 0 {
        read_name(p)
    } else {
        read_dir(p.subrange(0, k)) + seq!['/'] + read_name(file_name(p))
    }
}

/// Where a message is moved to when it is archived: the `cur` directory of
/// the archive folder, under the same file name.
pub open spec fn archive_target(p: Seq<char>, archive: Seq<char>) -> Seq<char> {
    archive + seq!['/', 'c', 'u', 'r', '/'] + file_name(p)
}

/// The last `c` lies inside `s`, and no `c` follows it.
pub proof fn lemma_last_index_bounds(s: Seq<char>, c: char)
    ensures
        -1 <= last_index_of(s, c) < s.len(),
        last_index_of(s, c) >= 0 ==> s[last_index_of(s, c)] == c,
        forall|i: int| last_index_of(s, c) < i < s.len() ==> s[i] != c,
    decreases s.len(),
{
    if s.len() > 0 && s.last() != c {
        lemma_last_index_bounds(s.drop_last(), c);
        assert forall|i: int| last_index_of(s, c) < i < s.len() implies s[i] != c by {
            if i < s.len() - 1 {
                assert(s[i] == s.drop_last()[i]);
            }
        }
    }
}

/// A sequence without `c` has no last `c`.
pub proof fn lemma_last_index_of_free(s: Seq<char>, c: char)
    requires
        forall|i: int| 0 <= i < s.len() ==> s[i] != c,
    ensures
        last_index_of(s, c) == -1,
    decreases s.len(),
{
    if s.len() > 0 {
        assert(s.drop_last().len() < s.len());
        lemma_last_index_of_free(s.drop_last(), c);
    }
}

/// The last `c` of `a + [c] + b`, where `b` holds no `c`, is the one between.
pub proof fn lemma_last_index_join(a: Seq<char>, c: char, b: Seq<char>)
    requires
        forall|i: int| 0 <= i < b.len() ==> b[i] != c,
    ensures
        last_index_of(a + seq![c] + b, c) == a.len(),
    decreases b.len(),
{
    if b.len() == 0 {
        assert((a + seq![c] + b).last() == c);
    } else {
        assert((a + seq![c] + b).drop_last() =~= a + seq![c] + b.drop_last());
        assert(b.last() == b[b.len() - 1]);
        lemma_last_index_join(a, c, b.drop_last());
    }
}

/// The first position from `i` where `p` stands is `j`, when it stands at `j`
/// and nowhere between.
pub proof fn lemma_find_from_first(s: Seq<char>, p: Seq<char>, i: int, j: int, fold: bool)
    requires
        0 <= i <= j,
        occurs_at(s, p, j, fold),
        forall|k: int| i <= k < j ==> !occurs_at(s, p, k, fold),
    ensures
        find_from(s, p, i, fold) == Some(j),
    decreases j - i,
{
    if i < j {
        lemma_find_from_first(s, p, i + 1, j, fold);
    }
}

/// Appending to a name keeps an earlier first occurrence of the flag marker,
/// and where there was none the appended marker is the first.
proof fn lemma_find_mark_extended(name: Seq<char>, ext: Seq<char>)
    requires
        ext == seq![':', '2', ',', 'S'] || ext == seq!['S'],
        ext == seq!['S'] ==> find_from(name, info_mark(), 0, false) is Some,
    ensures
        find_from(name, info_mark(), 0, false) matches Some(k) ==> find_from(
            name + ext,
            info_mark(),
            0,
            false,
        ) == Some(k),
        find_from(name, info_mark(), 0, false) is None ==> find_from(
            name + ext,
            info_mark(),
            0,
            false,
        ) == Some(name.len() as int),
{
    let s = name + ext;
    let mk = info_mark();
    lemma_find_from_props(name, mk, 0, false);
    match find_from(name, mk, 0, false) {
        Some(k) => {
            assert(occurs_at(s, mk, k, false)) by {
                assert forall|m: int| 0 <= m < mk.len() implies crate::text::char_eq(
                    #[trigger] s[k + m],
                    mk[m],
                    false,
                ) by {
                    assert(s[k + m] == name[k + m]);
                    assert(crate::text::char_eq(name[k + m], mk[m], false));
                }
            }
            assert forall|q: int| 0 <= q < k implies !occurs_at(s, mk, q, false) by {
                if occurs_at(s, mk, q, false) {
                    assert forall|m: int| 0 <= m < mk.len() implies crate::text::char_eq(
                        #[trigger] name[q + m],
                        mk[m],
                        false,
                    ) by {
                        assert(s[q + m] == name[q + m]);
                    }
                    assert(occurs_at(name, mk, q, false));
                }
            }
            lemma_find_from_first(s, mk, 0, k, false);
        },
        None => {
            let n = name.len() as int;
            assert(ext == seq![':', '2', ',', 'S']);
            assert(occurs_at(s, mk, n, false)) by {
                assert forall|m: int| 0 <= m < mk.len() implies crate::text::char_eq(
                    #[trigger] s[n + m],
                    mk[m],
                    false,
                ) by {
                    assert(s[n + m] == ext[m]);
                }
            }
            assert forall|q: int| 0 <= q < n implies !occurs_at(s, mk, q, false) by {
                if occurs_at(s, mk, q, false) {
                    assert(crate::text::char_eq(s[q + 0], mk[0], false));
                    assert(crate::text::char_eq(s[q + 1], mk[1], false));
                    assert(crate::text::char_eq(s[q + 2], mk[2], false));
                    if q + 2 < n {
                        assert forall|m: int| 0 <= m < mk.len() implies crate::text::char_eq(
                            #[trigger] name[q + m],
                            mk[m],
                            false,
                        ) by {
                            assert(s[q + m] == name[q + m]);
                        }
                        assert(occurs_at(name, mk, q, false));
                    } else if q + 2 == n {
                        assert(s[q + 2] == ext[0]);
                    } else {
                        assert(s[q + 1] == ext[0]);
                    }
                }
            }
            lemma_find_from_first(s, mk, 0, n, false);
        },
    }
}

/// A name with the read flag set is read, and setting it again changes nothing.
pub proof fn lemma_read_name(name: Seq<char>)
    ensures
        name_is_read(read_name(name)),
        read_name(read_name(name)) == read_name(name),
        name_is_read(name) ==> read_name(name) == name,
{
    let mk = info_mark();
    match find_from(name, mk, 0, false) {
        None => {
            let ext = seq![':', '2', ',', 'S'];
            lemma_find_mark_extended(name, ext);
            let s = name + ext;
            let n = name.len() as int;
            assert(s.subrange(n + 3, s.len() as int) =~= seq!['S']);
            assert(seq!['S'][0] == 'S');
        },
        Some(k) => {
            lemma_find_from_props(name, mk, 0, false);
            if !name.subrange(k + 3, name.len() as int).contains(read_flag()) {
                let ext = seq!['S'];
                lemma_find_mark_extended(name, ext);
                let s = name + ext;
                let flags = s.subrange(k + 3, s.len() as int);
                assert(flags[flags.len() - 1] == 'S');
            }
        },
    }
}

/// Setting the read flag adds no `/` to a file name.
pub proof fn lemma_read_name_no_slash(name: Seq<char>)
    requires
        forall|i: int| 0 <= i < name.len() ==> name[i] != '/',
    ensures
        forall|i: int| 0 <= i < read_name(name).len() ==> read_name(name)[i] != '/',
{
    let r = read_name(name);
    assert forall|i: int| 0 <= i < r.len() implies r[i] != '/' by {
        if i >= name.len() {
            match find_from(name, info_mark(), 0, false) {
                None => {
                    assert(r == name + seq![':', '2', ',', 'S']);
                },
                Some(k) => {
                    assert(r == name + seq!['S']);
                },
            }
        } else {
            match find_from(name, info_mark(), 0, false) {
                None => {
                    assert(r[i] == name[i]);
                },
                Some(k) => {
                    assert(r[i] == name[i]);
                },
            }
        }
    }
}

proof fn lemma_read_dir_idem(dir: Seq<char>)
    ensures
        read_dir(read_dir(dir)) == read_dir(dir),
{
    let m = last_index_of(dir, '/');
    lemma_last_index_bounds(dir, '/');
    let cur = seq!['c', 'u', 'r'];
    let new = seq!['n', 'e', 'w'];
    assert(cur[0] != new[0]);
    if dir.subrange(m + 1, dir.len() as int) == new {
        let d = dir.subrange(0, m + 1) + cur;
        assert forall|i: int| 0 <= i < cur.len() implies cur[i] != '/' by {}
        if m >= 0 {
            assert(d =~= dir.subrange(0, m) + seq!['/'] + cur);
            lemma_last_index_join(dir.subrange(0, m), '/', cur);
        } else {
            assert(d =~= cur);
            lemma_last_index_of_free(d, '/');
        }
        assert(d.subrange(m + 1, d.len() as int) =~= cur);
    }
}

/// The path a message moves to when read names a read message, and moving
/// it again leaves it where it is.
pub proof fn lemma_read_target(p: Seq<char>)
    ensures
        path_is_read(read_target(p)),
        read_target(read_target(p)) == read_target(p),
{
    let k = last_index_of(p, '/');
    lemma_last_index_bounds(p, '/');
    let name = file_name(p);
    assert forall|i: int| 0 <= i < name.len() implies name[i] != '/' by {
        assert(name[i] == p[k + 1 + i]);
    }
    lemma_read_name(name);
    lemma_read_name_no_slash(name);
    let rn = read_name(name);
    lemma_read_name(rn);
    if k < 0 {
        assert(name =~= p);
        lemma_last_index_of_free(rn, '/');
        assert(file_name(rn) =~= rn);
    } else {
        let d = read_dir(p.subrange(0, k));
        let t = d + seq!['/'] + rn;
        lemma_last_index_join(d, '/', rn);
        assert(file_name(t) =~= rn);
        assert(t.subrange(0, d.len() as int) =~= d);
        lemma_read_dir_idem(p.subrange(0, k));
    }
}

/// Position of the last `c` in `s[..to]`.
fn last_index_exec(s: &Vec<char>, to: usize, c: char) -> (r: Option<usize>)
    requires
        to <= s@.len(),
    ensures
        r matches Some(k) ==> last_index_of(s@.subrange(0, to as int), c) == k,
        r is None ==> last_index_of(s@.subrange(0, to as int), c) == -1,
{
    let mut j: usize = to;
    while j > 0 && s[j - 1] != c
        invariant
            j <= to <= s@.len(),
            last_index_of(s@.subrange(0, to as int), c) == last_index_of(
                s@.subrange(0, j as int),
                c,
            ),
        decreases j,
    {
        assert(s@.subrange(0, j as int).drop_last() =~= s@.subrange(0, j - 1));
        j = j - 1;
    }
    if j == 0 {
        None
    } else {
        Some(j - 1)
    }
}

fn read_name_exec(name: &Vec<char>) -> (r: Vec<char>)
    ensures
        r@ == read_name(name@),
{
    let mark = vec![':', '2', ','];
    assert(mark@ =~= info_mark());
    let mut out: Vec<char> = Vec::new();
    push_range(&mut out, name, 0, name.len());
    assert(name@.subrange(0, name@.len() as int) =~= name@);
    match find_from_exec(name, &mark, 0, false) {
        None => {
            out.push(':');
            out.push('2');
            out.push(',');
            out.push('S');
            assert(out@ =~= name@ + seq![':', '2', ',', 'S']);
        },
        Some(k) => {
            proof {
                lemma_find_from_props(name@, mark@, 0, false);
            }
            let mut seen = false;
            let mut i: usize = k + 3;
            while i < name.len()
                invariant
                    k + 3 <= name@.len(),
                    k + 3 <= i <= name@.len(),
                    seen == name@.subrange(k + 3, i as int).contains('S'),
                decreases name.len() - i,
            {
                proof {
                    let a = name@.subrange(k + 3, i as int);
                    let b = name@.subrange(k + 3, i + 1);
                    assert(b =~= a.push(name@[i as int]));
                    if b.contains('S') {
                        let w = choose|w: int| 0 <= w < b.len() && b[w] == 'S';
                        if w < a.len() {
                            assert(a[w] == 'S');
                        }
                    }
                    if a.contains('S') {
                        let w = choose|w: int| 0 <= w < a.len() && a[w] == 'S';
                        assert(b[w] == 'S');
                    }
                    if name@[i as int] == 'S' {
                        assert(b[a.len() as int] == 'S');
                    }
                }
                if name[i] == 'S' {
                    seen = true;
                }
                i = i + 1;
            }
            if !seen {
                out.push('S');
            }
        },
    }
    out
}

/// Whether a path names a message that has been read: its file name
/// carries `:2,` followed by flags that hold `S`.
pub fn is_read_path(path: &str) -> (r: bool)
    ensures
        r == path_is_read(path@),
{
    let s = chars_of(path);
    let n = s.len();
    assert(s@.subrange(0, n as int) =~= s@);
    proof {
        lemma_last_index_bounds(s@, '/');
    }
    let start = match last_index_exec(&s, n, '/') {
        Some(k) => k + 1,
        None => 0,
    };
    let mut name: Vec<char> = Vec::new();
    push_range(&mut name, &s, start, n);
    let rn = read_name_exec(&name);
    proof {
        lemma_read_name(name@);
    }
    rn.len() == name.len()
}

/// The path a message moves to when it is marked read: the read flag set in
/// its file name, and a message in `new` moved to the sibling `cur`.
pub fn read_target_path(path: &str) -> (r: String)
    ensures
        r@ == read_target(path@),
{
    let s = chars_of(path);
    let n = s.len();
    assert(s@.subrange(0, n as int) =~= s@);
    proof {
        lemma_last_index_bounds(s@, '/');
    }
    match last_index_exec(&s, n, '/') {
        None => {
            let rn = read_name_exec(&s);
            string_of(rn.as_slice())
        },
        Some(k) => {
            let mut name: Vec<char> = Vec::new();
            push_range(&mut name, &s, k + 1, n);
            let rn = read_name_exec(&name);
            let mut out: Vec<char> = Vec::new();
            let ghost dir = s@.subrange(0, k as int);
            proof {
                lemma_last_index_bounds(dir, '/');
            }
            let last = last_index_exec(&s, k, '/');
            let m_plus: usize = match last {
                Some(m) => m + 1,
                None => 0,
            };
            let is_new = k - m_plus == 3 && s[m_plus] == 'n' && s[m_plus + 1] == 'e' && s[m_plus
                + 2] == 'w';
            assert(is_new == (dir.subrange(m_plus as int, dir.len() as int) == seq!['n', 'e', 'w']))
                by {
                let sub = dir.subrange(m_plus as int, dir.len() as int);
                assert(sub.len() == k - m_plus);
                if k - m_plus == 3 {
                    assert(sub[0] == s@[m_plus as int]);
                    assert(sub[1] == s@[m_plus + 1]);
                    assert(sub[2] == s@[m_plus + 2]);
                    if sub == seq!['n', 'e', 'w'] {
                        assert(sub[0] == 'n');
                        assert(sub[1] == 'e');
                        assert(sub[2] == 'w');
                    }
                    if is_new {
                        assert(sub =~= seq!['n', 'e', 'w']);
                    }
                } else {
                    assert(seq!['n', 'e', 'w'].len() == 3);
                }
            }
            if is_new {
                push_range(&mut out, &s, 0, m_plus);
                out.push('c');
                out.push('u');
                out.push('r');
                assert(out@ =~= dir.subrange(0, m_plus as int) + seq!['c', 'u', 'r']);
            } else {
                push_range(&mut out, &s, 0, k);
            }
            out.push('/');
            let ghost before = out@;
            push_all_vec(&mut out, &rn);
            assert(out@ =~= read_dir(dir) + seq!['/'] + read_name(file_name(s@)));
            string_of(out.as_slice())
        },
    }
}

fn push_all_vec(out: &mut Vec<char>, src: &Vec<char>)
    ensures
        final(out)@ == old(out)@ + src@,
{
    push_range(out, src, 0, src.len());
    assert(src@.subrange(0, src@.len() as int) =~= src@);
}

/// The path a message moves to when it is archived: `<archive>/cur/` and
/// its file name.
pub fn archive_target_path(path: &str, archive: &str) -> (r: String)
    ensures
        r@ == archive_target(path@, archive@),
{
    let s = chars_of(path);
    let n = s.len();
    assert(s@.subrange(0, n as int) =~= s@);
    proof {
        lemma_last_index_bounds(s@, '/');
    }
    let start = match last_index_exec(&s, n, '/') {
        Some(k) => k + 1,
        None => 0,
    };
    let mut out = chars_of(archive);
    out.push('/');
    out.push('c');
    out.push('u');
    out.push('r');
    out.push('/');
    push_range(&mut out, &s, start, n);
    assert(out@ =~= archive_target(path@, archive@));
    string_of(out.as_slice())
}

} // verus!
