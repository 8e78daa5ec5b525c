//! The folder list and where each folder's messages lie.
use vstd::prelude::*;
use vstd::multiset::Multiset;
use vstd::seq_lib::{to_multiset_build, to_multiset_insert};
use crate::order::{lemma_seq_lt_irreflexive, lemma_seq_lt_transitive, seq_lt};
use crate::text::{chars_of, push_all, string_of};
use crate::view::compare_chars;

verus! {

/// The name under which the mail root itself is listed.
pub open spec fn inbox_name() -> Seq<char> {
    "INBOX"@
}

/// The character sequences of a list of strings.
pub open spec fn views(v: Seq<String>) -> Seq<Seq<char>> {
    v.map_values(|s: String| s@)
}

/// Ascending order, equal names side by side.
pub open spec fn ascending(v: Seq<Seq<char>>) -> bool {
    forall|a: int, b: int| 0 <= a < b < v.len() ==> !seq_lt(#[trigger] v[b], #[trigger] v[a])
}

/// Sorts names into ascending order.
pub fn sort_names(names: Vec<String>) -> (r: Vec<String>)
    ensures
        ascending(views(r@)),
        views(r@).to_multiset() == views(names@).to_multiset(),
{
    broadcast use vstd::seq_lib::group_to_multiset_ensures;

    let ghost orig = views(names@);
    let mut rest = names;
    let mut out: Vec<String> = Vec::new();
    assert(views(out@) =~= Seq::<Seq<char>>::empty());
    assert(views(out@).to_multiset() =~= Multiset::<Seq<char>>::empty());
    while rest.len() > 0
        invariant
            ascending(views(out@)),
            views(out@).to_multiset().add(views(rest@).to_multiset()) == orig.to_multiset(),
        decreases rest.len(),
    {
        let ghost before_rest = rest@;
        let x = rest.pop().unwrap();
        proof {
            assert(before_rest =~= rest@.push(x));
            assert(views(before_rest) =~= views(rest@).push(x@));
            to_multiset_build(views(rest@), x@);
        }
        let xc = chars_of(x.as_str());
        let mut p: usize = 0;
        let mut go = true;
        while go && p < out.len()
            invariant
                xc@ == x@,
                p <= out@.len(),
                forall|q: int| 0 <= q < p ==> !seq_lt(x@, #[trigger] out@[q]@),
                !go ==> p < out@.len() && seq_lt(x@, out@[p as int]@),
            decreases out.len() - p + (if go { 1int } else { 0int }),
        {
            let (lt, _) = compare_chars(&xc, &chars_of(out[p].as_str()));
            if lt {
                go = false;
            } else {
                p = p + 1;
            }
        }
        let ghost old_out = out@;
        let ghost ov = views(old_out);
        out.insert(p, x);
        proof {
            assert(views(out@) =~= ov.insert(p as int, x@));
            to_multiset_insert(ov, p as int, x@);
            let nv = views(out@);
            assert forall|a: int, b: int| 0 <= a < b < nv.len() implies !seq_lt(
                #[trigger] nv[b],
                #[trigger] nv[a],
            ) by {
                if b < p {
                    assert(nv[a] == ov[a] && nv[b] == ov[b]);
                } else if b == p {
                    assert(nv[a] == ov[a] && nv[b] == x@);
                    assert(!seq_lt(x@, old_out[a]@));
                } else if a > p {
                    assert(nv[a] == ov[a - 1] && nv[b] == ov[b - 1]);
                } else if a == p {
                    assert(nv[a] == x@ && nv[b] == ov[b - 1]);
                    assert(seq_lt(x@, ov[p as int]));
                    if seq_lt(ov[b - 1], x@) {
                        lemma_seq_lt_transitive(ov[b - 1], x@, ov[p as int]);
                        if b - 1 == p {
                            lemma_seq_lt_irreflexive(ov[p as int]);
                        }
                    }
                } else {
                    assert(nv[a] == ov[a] && nv[b] == ov[b - 1]);
                }
            }
        }
    }
    assert(views(rest@) =~= Seq::<Seq<char>>::empty());
    assert(views(rest@).to_multiset() =~= Multiset::<Seq<char>>::empty());
    out
}

/// The folders to list: the inbox alone where the mail root is itself a
/// message store; else the folders found under it in ascending order, or
/// the inbox where there are none.
pub fn folder_list(root_is_store: bool, found: Vec<String>) -> (r: Vec<String>)
    ensures
        root_is_store ==> views(r@) == seq![inbox_name()],
        !root_is_store && found@.len() == 0 ==> views(r@) == seq![inbox_name()],
        !root_is_store && found@.len() > 0 ==> ascending(views(r@)) && views(r@).to_multiset()
            == views(found@).to_multiset(),
{
    if root_is_store || found.len() == 0 {
        let r = vec!["INBOX".to_owned()];
        assert(views(r@) =~= seq![inbox_name()]);
        r
    } else {
        sort_names(found)
    }
}

/// Where the messages of a listed folder lie: the mail root itself for the
/// inbox when the root is a message store, else the folder of that name
/// under the root.
pub open spec fn folder_dir_of(root: Seq<char>, name: Seq<char>, root_is_store: bool) -> Seq<char> {
    if name == inbox_name() && root_is_store {
        root
    } else {
        root + seq!['/'] + name
    }
}

/// The directory of a listed folder.
pub fn folder_dir(root: &str, name: &str, root_is_store: bool) -> (r: String)
    ensures
        r@ == folder_dir_of(root@, name@, root_is_store),
{
    let n = chars_of(name);
    let inbox = chars_of("INBOX");
    let (_, same) = compare_chars(&n, &inbox);
    let mut out = chars_of(root);
    if same && root_is_store {
        return string_of(out.as_slice());
    }
    out.push('/');
    push_all(&mut out, n.as_slice());
    string_of(out.as_slice())
}

} // verus!
