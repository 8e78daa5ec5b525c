//! The order of the message list: by date, sender or subject, either way,
//! with the position in the folder breaking ties.
use vstd::prelude::*;
use crate::message::MessageRecord;
use crate::text::lower;

verus! {

/// The columns the message list can be sorted by.
#[derive(Clone, Copy, Debug, PartialEq, Eq, Structural)]
pub enum SortColumn {
    Date,
    Sender,
    Subject,
}

/// Lexicographic order of character sequences by code point, which is the
/// order `String`'s comparison gives.
pub open spec fn seq_lt(a: Seq<char>, b: Seq<char>) -> bool
    decreases a.len(),
{
    if a.len() == 0 {
        b.len() > 0
    } else if b.len() == 0 {
        false
    } else if a[0] != b[0] {
        a[0] < b[0]
    } else {
        seq_lt(a.drop_first(), b.drop_first())
    }
}

/// No sequence is below itself.
pub proof fn lemma_seq_lt_irreflexive(a: Seq<char>)
    ensures
        !seq_lt(a, a),
    decreases a.len(),
{
    if a.len() > 0 {
        lemma_seq_lt_irreflexive(a.drop_first());
    }
}

/// The lexicographic order is transitive.
pub proof fn lemma_seq_lt_transitive(a: Seq<char>, b: Seq<char>, c: Seq<char>)
    requires
        seq_lt(a, b),
        seq_lt(b, c),
    ensures
        seq_lt(a, c),
    decreases a.len(),
{
    if a.len() > 0 && b.len() > 0 && c.len() > 0 {
        if a[0] == b[0] && b[0] == c[0] {
            lemma_seq_lt_transitive(a.drop_first(), b.drop_first(), c.drop_first());
        }
    }
}

/// Of two different sequences, one is below the other.
pub proof fn lemma_seq_lt_total(a: Seq<char>, b: Seq<char>)
    requires
        a != b,
    ensures
        seq_lt(a, b) || seq_lt(b, a),
    decreases a.len(),
{
    if a.len() > 0 && b.len() > 0 {
        if a[0] == b[0] {
            if a.drop_first() == b.drop_first() {
                assert(a =~= seq![a[0]] + a.drop_first());
                assert(b =~= seq![b[0]] + b.drop_first());
            }
            lemma_seq_lt_total(a.drop_first(), b.drop_first());
        }
    } else if a.len() == 0 && b.len() == 0 {
        assert(a =~= b);
    }
}

/// The text a record is sorted by in a text column: the sender or the
/// subject, lower-cased.
pub open spec fn key_text(r: MessageRecord, col: SortColumn) -> Seq<char> {
    match col {
        SortColumn::Sender => lower(r.from@),
        _ => lower(r.subject@),
    }
}

/// Two records have equal keys in this column.
pub open spec fn key_eq(a: MessageRecord, b: MessageRecord, col: SortColumn) -> bool {
    match col {
        SortColumn::Date => a.timestamp == b.timestamp,
        _ => key_text(a, col) == key_text(b, col),
    }
}

/// The key of `a` is below that of `b` in this column.
pub open spec fn key_lt(a: MessageRecord, b: MessageRecord, col: SortColumn) -> bool {
    match col {
        SortColumn::Date => a.timestamp < b.timestamp,
        _ => seq_lt(key_text(a, col), key_text(b, col)),
    }
}

/// Record `i` of `rs` comes before record `j`: by key, ascending or
/// descending, and by position where the keys are equal.
pub open spec fn before(rs: Seq<MessageRecord>, col: SortColumn, desc: bool, i: int, j: int) -> bool {
    if key_eq(rs[i], rs[j], col) {
        i < j
    } else if desc {
        key_lt(rs[j], rs[i], col)
    } else {
        key_lt(rs[i], rs[j], col)
    }
}

/// `d` lists positions of `rs` in strictly increasing order.
pub open spec fn sorted_by(rs: Seq<MessageRecord>, col: SortColumn, desc: bool, d: Seq<usize>) -> bool {
    forall|a: int, b: int|
        0 <= a < b < d.len() ==> #[trigger] before(rs, col, desc, d[a] as int, d[b] as int)
}

proof fn lemma_key_lt_not_eq(a: MessageRecord, b: MessageRecord, col: SortColumn)
    requires
        key_lt(a, b, col),
    ensures
        !key_eq(a, b, col),
{
    if col != SortColumn::Date {
        lemma_seq_lt_irreflexive(key_text(a, col));
    }
}

proof fn lemma_key_lt_trans(a: MessageRecord, b: MessageRecord, c: MessageRecord, col: SortColumn)
    requires
        key_lt(a, b, col),
        key_lt(b, c, col),
    ensures
        key_lt(a, c, col),
{
    if col != SortColumn::Date {
        lemma_seq_lt_transitive(key_text(a, col), key_text(b, col), key_text(c, col));
    }
}

/// No position comes before itself.
pub proof fn lemma_before_irreflexive(rs: Seq<MessageRecord>, col: SortColumn, desc: bool, i: int)
    ensures
        !before(rs, col, desc, i, i),
{
}

/// The order is transitive.
pub proof fn lemma_before_transitive(
    rs: Seq<MessageRecord>,
    col: SortColumn,
    desc: bool,
    i: int,
    j: int,
    k: int,
)
    requires
        before(rs, col, desc, i, j),
        before(rs, col, desc, j, k),
    ensures
        before(rs, col, desc, i, k),
{
    let (a, b, c) = (rs[i], rs[j], rs[k]);
    if key_eq(a, b, col) && key_eq(b, c, col) {
    } else if key_eq(a, b, col) {
        if desc {
            lemma_key_lt_not_eq(c, b, col);
        } else {
            lemma_key_lt_not_eq(b, c, col);
        }
    } else if key_eq(b, c, col) {
        if desc {
            lemma_key_lt_not_eq(b, a, col);
        } else {
            lemma_key_lt_not_eq(a, b, col);
        }
    } else if desc {
        lemma_key_lt_trans(c, b, a, col);
        lemma_key_lt_not_eq(c, a, col);
    } else {
        lemma_key_lt_trans(a, b, c, col);
        lemma_key_lt_not_eq(a, c, col);
    }
}

/// Of two distinct positions, one comes before the other.
pub proof fn lemma_before_total(rs: Seq<MessageRecord>, col: SortColumn, desc: bool, i: int, j: int)
    requires
        i != j,
    ensures
        before(rs, col, desc, i, j) || before(rs, col, desc, j, i),
{
    if !key_eq(rs[i], rs[j], col) && col != SortColumn::Date {
        lemma_seq_lt_total(key_text(rs[i], col), key_text(rs[j], col));
    }
}

/// Two strictly sorted lists of the same positions are the same list.
pub proof fn lemma_sorted_unique(
    rs: Seq<MessageRecord>,
    col: SortColumn,
    desc: bool,
    d1: Seq<usize>,
    d2: Seq<usize>,
)
    requires
        sorted_by(rs, col, desc, d1),
        sorted_by(rs, col, desc, d2),
        forall|x: usize| d1.contains(x) <==> d2.contains(x),
    ensures
        d1 == d2,
    decreases d1.len(),
{
    if d1.len() == 0 {
        if d2.len() > 0 {
            assert(d2.contains(d2[0]));
        }
        assert(d1 =~= d2);
    } else {
        assert(d1.contains(d1[0]));
        assert(d2.len() > 0);
        assert(d2.contains(d2[0]));
        let a = d1[0];
        let b = d2[0];
        if a != b {
            let i = choose|i: int| 0 <= i < d1.len() && d1[i] == b;
            let j = choose|j: int| 0 <= j < d2.len() && d2[j] == a;
            assert(before(rs, col, desc, d1[0] as int, d1[i] as int));
            assert(before(rs, col, desc, d2[0] as int, d2[j] as int));
            lemma_before_transitive(rs, col, desc, a as int, b as int, a as int);
        }
        let t1 = d1.drop_first();
        let t2 = d2.drop_first();
        assert forall|x: usize| t1.contains(x) <==> t2.contains(x) by {
            if t1.contains(x) {
                let i = choose|i: int| 0 <= i < t1.len() && t1[i] == x;
                assert(before(rs, col, desc, d1[0] as int, d1[i + 1] as int));
                assert(d1.contains(x));
                let j = choose|j: int| 0 <= j < d2.len() && d2[j] == x;
                assert(j != 0);
                assert(t2[j - 1] == x);
            }
            if t2.contains(x) {
                let j = choose|j: int| 0 <= j < t2.len() && t2[j] == x;
                assert(before(rs, col, desc, d2[0] as int, d2[j + 1] as int));
                assert(d2.contains(x));
                let i = choose|i: int| 0 <= i < d1.len() && d1[i] == x;
                assert(i != 0);
                assert(t1[i - 1] == x);
            }
        }
        assert forall|p: int, q: int| 0 <= p < q < t1.len() implies #[trigger] before(
            rs,
            col,
            desc,
            t1[p] as int,
            t1[q] as int,
        ) by {
            assert(before(rs, col, desc, d1[p + 1] as int, d1[q + 1] as int));
        }
        assert forall|p: int, q: int| 0 <= p < q < t2.len() implies #[trigger] before(
            rs,
            col,
            desc,
            t2[p] as int,
            t2[q] as int,
        ) by {
            assert(before(rs, col, desc, d2[p + 1] as int, d2[q + 1] as int));
        }
        lemma_sorted_unique(rs, col, desc, t1, t2);
        assert(d1 =~= seq![a] + t1);
        assert(d2 =~= seq![b] + t2);
    }
}

} // verus!
