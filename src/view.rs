//! The collection view: the records of the active folder, and the filtered,
//! sorted projection of them that the message list shows.
use vstd::prelude::*;
use crate::marker::{read_target, read_target_path};
use crate::message::{mark_read, read_moved, MessageRecord};
use crate::order::{
    before, key_text, lemma_before_total, lemma_before_transitive,
    seq_lt, sorted_by, SortColumn,
};
use crate::text::{
    all_ws, all_ws_exec, chars_of, contains, contains_exec, lower, lower_chars,
    occurs_at,
};
use crate::order::lemma_sorted_unique;

verus! {

/// Whether a record passes the search query: a query of whitespace only
/// passes everything; otherwise the lower-cased query must stand in the
/// lower-cased subject, sender or full date.
pub open spec fn query_matches(r: MessageRecord, q: Seq<char>) -> bool {
    ||| all_ws(q)
    ||| contains(lower(r.subject@), lower(q))
    ||| contains(lower(r.from@), lower(q))
    ||| contains(lower(r.date_full@), lower(q))
}

/// `d` lists, once each, the positions of the records of `rs` that pass `q`.
pub open spec fn selects(rs: Seq<MessageRecord>, q: Seq<char>, d: Seq<usize>) -> bool {
    &&& forall|k: int| 0 <= k < d.len() ==> (#[trigger] d[k]) < rs.len() && query_matches(rs[d[k] as int], q)
    &&& forall|i: usize| i < rs.len() && query_matches(rs[i as int], q) ==> d.contains(i)
}

/// `d` is the projection of `rs` under query `q`, sorted by `col` in the
/// direction `desc`: the passing records, each once, in the list's order.
pub open spec fn is_projection(
    rs: Seq<MessageRecord>,
    q: Seq<char>,
    col: SortColumn,
    desc: bool,
    d: Seq<usize>,
) -> bool {
    &&& sorted_by(rs, col, desc, d)
    &&& selects(rs, q, d)
}

fn record_matches(r: &MessageRecord, lq: &Vec<char>, blank: bool, q: Ghost<Seq<char>>) -> (b: bool)
    requires
        lq@ == lower(q@),
        blank == all_ws(q@),
    ensures
        b == query_matches(*r, q@),
{
    if blank {
        return true;
    }
    let s = lower_chars(r.subject.as_str());
    if contains_exec(&s, lq) {
        return true;
    }
    let f = lower_chars(r.from.as_str());
    if contains_exec(&f, lq) {
        return true;
    }
    let d = lower_chars(r.date_full.as_str());
    contains_exec(&d, lq)
}

/// The positions of the records that pass the search query, in their order.
pub fn perform_search(entries: &Vec<MessageRecord>, query: &str) -> (r: Vec<usize>)
    ensures
        selects(entries@, query@, r@),
        forall|a: int, b: int| 0 <= a < b < r@.len() ==> r@[a] < r@[b],
{
    let qv = chars_of(query);
    let lq = lower_chars(query);
    let blank = all_ws_exec(&qv);
    let mut out: Vec<usize> = Vec::new();
    let mut i: usize = 0;
    while i < entries.len()
        invariant
            i <= entries@.len(),
            lq@ == lower(query@),
            blank == all_ws(query@),
            forall|k: int| 0 <= k < out@.len() ==> (#[trigger] out@[k]) < i && query_matches(entries@[out@[k] as int], query@),
            forall|j: usize| j < i && query_matches(entries@[j as int], query@) ==> out@.contains(j),
            forall|a: int, b: int| 0 <= a < b < out@.len() ==> out@[a] < out@[b],
        decreases entries.len() - i,
    {
        if record_matches(&entries[i], &lq, blank, Ghost(query@)) {
            let ghost old_out = out@;
            out.push(i);
            assert(out@[out@.len() - 1] == i);
            assert forall|j: usize| j < i + 1 && query_matches(entries@[j as int], query@) implies out@.contains(j) by {
                if j < i {
                    assert(old_out.contains(j));
                    let k = choose|k: int| 0 <= k < old_out.len() && old_out[k] == j;
                    assert(out@[k] == j);
                } else {
                    assert(out@[out@.len() - 1] == j);
                }
            }
        }
        i = i + 1;
    }
    out
}

/// The sort keys of a text column, one per record.
pub open spec fn keys_for(rs: Seq<MessageRecord>, col: SortColumn, keys: Seq<Vec<char>>) -> bool {
    col != SortColumn::Date ==> {
        &&& keys.len() == rs.len()
        &&& forall|k: int| 0 <= k < rs.len() ==> (#[trigger] keys[k])@ == key_text(rs[k], col)
    }
}

fn sort_keys(rs: &Vec<MessageRecord>, col: SortColumn) -> (keys: Vec<Vec<char>>)
    ensures
        keys_for(rs@, col, keys@),
{
    let mut keys: Vec<Vec<char>> = Vec::new();
    if col == SortColumn::Date {
        return keys;
    }
    let mut i: usize = 0;
    while i < rs.len()
        invariant
            col != SortColumn::Date,
            i <= rs@.len(),
            keys@.len() == i,
            forall|k: int| 0 <= k < i ==> (#[trigger] keys@[k])@ == key_text(rs@[k], col),
        decreases rs.len() - i,
    {
        let field = if col == SortColumn::Sender {
            rs[i].from.as_str()
        } else {
            rs[i].subject.as_str()
        };
        keys.push(lower_chars(field));
        i = i + 1;
    }
    keys
}

/// Compares two character sequences: (first below second, both equal).
pub fn compare_chars(a: &Vec<char>, b: &Vec<char>) -> (r: (bool, bool))
    ensures
        r.0 == seq_lt(a@, b@),
        r.1 == (a@ == b@),
{
    let mut i: usize = 0;
    assert(a@.subrange(0, a@.len() as int) =~= a@);
    assert(b@.subrange(0, b@.len() as int) =~= b@);
    while i < a.len() && i < b.len() && a[i] == b[i]
        invariant
            i <= a@.len(),
            i <= b@.len(),
            a@.subrange(0, i as int) == b@.subrange(0, i as int),
            seq_lt(a@, b@) == seq_lt(
                a@.subrange(i as int, a@.len() as int),
                b@.subrange(i as int, b@.len() as int),
            ),
        decreases a.len() - i,
    {
        let ghost sa = a@.subrange(i as int, a@.len() as int);
        let ghost sb = b@.subrange(i as int, b@.len() as int);
        assert(sa.drop_first() =~= a@.subrange(i + 1, a@.len() as int));
        assert(sb.drop_first() =~= b@.subrange(i + 1, b@.len() as int));
        assert(a@.subrange(0, i + 1) =~= a@.subrange(0, i as int).push(a@[i as int]));
        assert(b@.subrange(0, i + 1) =~= b@.subrange(0, i as int).push(b@[i as int]));
        i = i + 1;
    }
    let ghost sa = a@.subrange(i as int, a@.len() as int);
    let ghost sb = b@.subrange(i as int, b@.len() as int);
    let eq = i == a.len() && i == b.len();
    proof {
        if eq {
            assert(a@ =~= a@.subrange(0, i as int));
            assert(b@ =~= b@.subrange(0, i as int));
        } else if a@ == b@ {
            assert(i < a@.len() && i < b@.len());
            assert(a@[i as int] == b@[i as int]);
        }
    }
    let lt = if i == a.len() {
        i < b.len()
    } else if i == b.len() {
        false
    } else {
        assert(sa[0] == a@[i as int]);
        assert(sb[0] == b@[i as int]);
        a[i] < b[i]
    };
    (lt, eq)
}

fn before_exec(
    rs: &Vec<MessageRecord>,
    keys: &Vec<Vec<char>>,
    col: SortColumn,
    desc: bool,
    i: usize,
    j: usize,
) -> (r: bool)
    requires
        i < rs@.len(),
        j < rs@.len(),
        keys_for(rs@, col, keys@),
    ensures
        r == before(rs@, col, desc, i as int, j as int),
{
    let (lt_ij, eq, lt_ji) = if col == SortColumn::Date {
        let a = rs[i].timestamp;
        let b = rs[j].timestamp;
        (a < b, a == b, b < a)
    } else {
        let (l1, e) = compare_chars(&keys[i], &keys[j]);
        let (l2, _) = compare_chars(&keys[j], &keys[i]);
        (l1, e, l2)
    };
    if eq {
        i < j
    } else if desc {
        lt_ji
    } else {
        lt_ij
    }
}

/// Sorts positions of `rs` into the list's order.
fn sort_positions(
    rs: &Vec<MessageRecord>,
    col: SortColumn,
    desc: bool,
    idx: &Vec<usize>,
) -> (d: Vec<usize>)
    requires
        forall|k: int| 0 <= k < idx@.len() ==> (#[trigger] idx@[k]) < rs@.len(),
        forall|a: int, b: int| 0 <= a < b < idx@.len() ==> idx@[a] < idx@[b],
    ensures
        sorted_by(rs@, col, desc, d@),
        forall|x: usize| d@.contains(x) <==> idx@.contains(x),
{
    let keys = sort_keys(rs, col);
    let mut d: Vec<usize> = Vec::new();
    let mut t: usize = 0;
    while t < idx.len()
        invariant
            t <= idx@.len(),
            keys_for(rs@, col, keys@),
            forall|k: int| 0 <= k < idx@.len() ==> (#[trigger] idx@[k]) < rs@.len(),
            forall|a: int, b: int| 0 <= a < b < idx@.len() ==> idx@[a] < idx@[b],
            sorted_by(rs@, col, desc, d@),
            forall|k: int| 0 <= k < d@.len() ==> (#[trigger] d@[k]) < rs@.len(),
            forall|x: usize| d@.contains(x) <==> idx@.subrange(0, t as int).contains(x),
        decreases idx.len() - t,
    {
        let x = idx[t];
        assert(!d@.contains(x)) by {
            if d@.contains(x) {
                let k = choose|k: int| 0 <= k < t && idx@.subrange(0, t as int)[k] == x;
                assert(idx@[k] == x);
                assert(idx@[k] < idx@[t as int]);
            }
        }
        let mut p: usize = 0;
        while p < d.len() && before_exec(rs, &keys, col, desc, d[p], x)
            invariant
                p <= d@.len(),
                x < rs@.len(),
                keys_for(rs@, col, keys@),
                forall|k: int| 0 <= k < p ==> before(rs@, col, desc, #[trigger] d@[k] as int, x as int),
                forall|k: int| 0 <= k < d@.len() ==> (#[trigger] d@[k]) < rs@.len(),
            decreases d.len() - p,
        {
            p = p + 1;
        }
        let ghost old_d = d@;
        proof {
            if p < old_d.len() {
                assert(old_d[p as int] != x) by {
                    assert(old_d.contains(old_d[p as int]));
                }
                lemma_before_total(rs@, col, desc, old_d[p as int] as int, x as int);
            }
        }
        d.insert(p, x);
        assert(d@ == old_d.insert(p as int, x));
        assert forall|k: int| 0 <= k < d@.len() implies (#[trigger] d@[k]) < rs@.len() by {
            if k < p {
                assert(d@[k] == old_d[k]);
            } else if k > p {
                assert(d@[k] == old_d[k - 1]);
            }
        }
        assert forall|a: int, b: int| 0 <= a < b < d@.len() implies #[trigger] before(
            rs@,
            col,
            desc,
            d@[a] as int,
            d@[b] as int,
        ) by {
            if b < p {
                assert(before(rs@, col, desc, old_d[a] as int, old_d[b] as int));
            } else if b == p {
                assert(d@[b] == x);
            } else if a > p {
                assert(before(rs@, col, desc, old_d[a - 1] as int, old_d[b - 1] as int));
            } else if a == p {
                assert(d@[a] == x);
                if b - 1 > p {
                    assert(before(rs@, col, desc, old_d[p as int] as int, old_d[b - 1] as int));
                    lemma_before_transitive(
                        rs@,
                        col,
                        desc,
                        x as int,
                        old_d[p as int] as int,
                        old_d[b - 1] as int,
                    );
                }
            } else {
                assert(before(rs@, col, desc, old_d[a] as int, x as int));
                assert(before(rs@, col, desc, old_d[a] as int, old_d[b - 1] as int));
            }
        }
        let ghost s0 = idx@.subrange(0, t as int);
        let ghost s1 = idx@.subrange(0, t + 1);
        assert(s1 =~= s0.push(x));
        assert forall|y: usize| d@.contains(y) <==> s1.contains(y) by {
            if d@.contains(y) {
                let k = choose|k: int| 0 <= k < d@.len() && d@[k] == y;
                if k < p {
                    assert(old_d[k] == y);
                    assert(old_d.contains(y));
                } else if k > p {
                    assert(old_d[k - 1] == y);
                    assert(old_d.contains(y));
                }
                if y != x {
                    assert(s0.contains(y));
                    let m = choose|m: int| 0 <= m < s0.len() && s0[m] == y;
                    assert(s1[m] == y);
                } else {
                    assert(s1[t as int] == y);
                }
            }
            if s1.contains(y) {
                let m = choose|m: int| 0 <= m < s1.len() && s1[m] == y;
                if m < t {
                    assert(s0[m] == y);
                    assert(old_d.contains(y));
                    let k = choose|k: int| 0 <= k < old_d.len() && old_d[k] == y;
                    if k < p {
                        assert(d@[k] == y);
                    } else {
                        assert(d@[k + 1] == y);
                    }
                } else {
                    assert(d@[p as int] == y);
                }
            }
        }
        t = t + 1;
    }
    assert(idx@.subrange(0, idx@.len() as int) =~= idx@);
    d
}

/// The projection of `rs` under `query`, sorted by `col` in direction `desc`.
pub fn project(rs: &Vec<MessageRecord>, query: &str, col: SortColumn, desc: bool) -> (d: Vec<usize>)
    ensures
        is_projection(rs@, query@, col, desc, d@),
{
    let idx = perform_search(rs, query);
    let d = sort_positions(rs, col, desc, &idx);
    assert forall|k: int| 0 <= k < d@.len() implies (#[trigger] d@[k]) < rs@.len() && query_matches(
        rs@[d@[k] as int],
        query@,
    ) by {
        assert(d@.contains(d@[k]));
        assert(idx@.contains(d@[k]));
    }
    d
}

/// The records of `rs` whose path is not `p`, in order.
pub open spec fn without_path(rs: Seq<MessageRecord>, p: Seq<char>) -> Seq<MessageRecord>
    decreases rs.len(),
{
    if rs.len() == 0 {
        Seq::empty()
    } else if rs.last().path@ == p {
        without_path(rs.drop_last(), p)
    } else {
        without_path(rs.drop_last(), p).push(rs.last())
    }
}

/// How many records of `rs` have path `p`.
pub open spec fn count_path(rs: Seq<MessageRecord>, p: Seq<char>) -> nat
    decreases rs.len(),
{
    if rs.len() == 0 {
        0
    } else if rs.last().path@ == p {
        count_path(rs.drop_last(), p) + 1
    } else {
        count_path(rs.drop_last(), p)
    }
}

/// `b` is `a` with every record at path `from` moved by the read transition.
pub open spec fn after_read(a: Seq<MessageRecord>, b: Seq<MessageRecord>, from: Seq<char>) -> bool {
    &&& b.len() == a.len()
    &&& forall|i: int|
        0 <= i < a.len() ==> if (#[trigger] a[i]).path@ == from {
            read_moved(a[i], b[i])
        } else {
            b[i] == a[i]
        }
}

/// The selection after the selected row was removed: the same index if it
/// still exists, else the one before it, else none.
pub open spec fn repaired(prev: Option<usize>, len: nat) -> Option<usize> {
    match prev {
        None => None,
        Some(k) => if k < len {
            Some(k)
        } else if k >= 1 && k - 1 < len {
            Some((k - 1) as usize)
        } else {
            None
        },
    }
}

/// What selecting a row asks of the caller.
pub enum SelectOutcome {
    /// There is no such row; nothing changed.
    OutOfRange,
    /// The row is selected, and its message was read already.
    Selected,
    /// The row is selected, and its unread message's file must be renamed
    /// from the first path to the second; `finish_read` takes the outcome.
    Rename(String, String),
}

/// Whether replying to a message is allowed yet, and if not, in how many
/// whole hours it will be.
pub struct ReplyEligibility {
    pub allowed: bool,
    pub hours_remaining: i64,
}

/// The records of the active folder and the list the user sees of them.
pub struct CollectionView {
    /// Every record of the active folder, in scan order.
    authoritative: Vec<MessageRecord>,
    /// Positions in `authoritative` of the rows shown, in display order.
    display: Vec<usize>,
    /// The search text.
    query: String,
    /// The column the list is sorted by.
    column: SortColumn,
    /// The last direction chosen for each column: descending or not.
    date_descending: bool,
    sender_descending: bool,
    subject_descending: bool,
    /// The selected row of `display`, if any.
    selected: Option<usize>,
    /// The tag of the newest folder load.
    generation: u64,
    /// Whether the newest folder load has yet to deliver.
    loading: bool,
}

impl CollectionView {
    /// Every record of the active folder, in scan order.
    pub closed spec fn records(&self) -> Seq<MessageRecord> {
        self.authoritative@
    }

    /// Positions in `records()` of the rows shown, in display order.
    pub closed spec fn rows(&self) -> Seq<usize> {
        self.display@
    }

    /// The search text.
    pub closed spec fn query_text(&self) -> Seq<char> {
        self.query@
    }

    /// The column the list is sorted by.
    pub closed spec fn sort_column(&self) -> SortColumn {
        self.column
    }

    /// The direction remembered for a column: descending or not.
    pub closed spec fn direction(&self, col: SortColumn) -> bool {
        match col {
            SortColumn::Date => self.date_descending,
            SortColumn::Sender => self.sender_descending,
            SortColumn::Subject => self.subject_descending,
        }
    }

    /// The selected row, if any.
    pub closed spec fn selection(&self) -> Option<usize> {
        self.selected
    }

    /// The tag of the newest folder load.
    pub closed spec fn load_tag(&self) -> u64 {
        self.generation
    }

    /// Whether the newest folder load has yet to deliver.
    pub closed spec fn pending(&self) -> bool {
        self.loading
    }

    /// The direction of the active sort.
    pub open spec fn descending(&self) -> bool {
        self.direction(self.sort_column())
    }

    /// The display is the projection of the records under the query and
    /// the sort, and the selection is a row of it.
    pub open spec fn wf(&self) -> bool {
        &&& is_projection(
            self.records(),
            self.query_text(),
            self.sort_column(),
            self.descending(),
            self.rows(),
        )
        &&& (self.selection() matches Some(k) ==> k < self.rows().len())
    }

    /// The record shown in row `k`.
    pub open spec fn shown(&self, k: int) -> MessageRecord {
        self.records()[self.rows()[k] as int]
    }

    /// Sort and load settings are the same in both views.
    pub open spec fn same_settings(&self, other: &Self) -> bool {
        &&& self.query_text() == other.query_text()
        &&& self.sort_column() == other.sort_column()
        &&& self.direction(SortColumn::Date) == other.direction(SortColumn::Date)
        &&& self.direction(SortColumn::Sender) == other.direction(SortColumn::Sender)
        &&& self.direction(SortColumn::Subject) == other.direction(SortColumn::Subject)
        &&& self.load_tag() == other.load_tag()
        &&& self.pending() == other.pending()
    }

    /// Every record of the active folder, in scan order.
    pub fn authoritative(&self) -> (r: &Vec<MessageRecord>)
        ensures
            r@ == self.records(),
    {
        &self.authoritative
    }

    /// The column the list is sorted by.
    pub fn column(&self) -> (r: SortColumn)
        ensures
            r == self.sort_column(),
    {
        self.column
    }

    /// Whether a column sorts descending when it is, or next becomes, active.
    pub fn is_descending(&self, col: SortColumn) -> (r: bool)
        ensures
            r == self.direction(col),
    {
        match col {
            SortColumn::Date => self.date_descending,
            SortColumn::Sender => self.sender_descending,
            SortColumn::Subject => self.subject_descending,
        }
    }

    /// The selected row, if any.
    pub fn selected(&self) -> (r: Option<usize>)
        ensures
            r == self.selection(),
    {
        self.selected
    }

    /// The tag of the newest folder load.
    pub fn generation(&self) -> (r: u64)
        ensures
            r == self.load_tag(),
    {
        self.generation
    }

    /// Whether the newest folder load has yet to deliver.
    pub fn loading(&self) -> (r: bool)
        ensures
            r == self.pending(),
    {
        self.loading
    }

    /// An empty view sorted by date, oldest first; sender and subject
    /// start descending when first chosen.
    pub fn new() -> (r: Self)
        ensures
            r.wf(),
            r.records().len() == 0,
            r.rows().len() == 0,
            r.query_text().len() == 0,
            r.sort_column() == SortColumn::Date,
            !r.direction(SortColumn::Date),
            r.direction(SortColumn::Sender),
            r.direction(SortColumn::Subject),
            r.selection() is None,
            r.load_tag() == 0,
            !r.pending(),
    {
        CollectionView {
            authoritative: Vec::new(),
            display: Vec::new(),
            query: String::new(),
            column: SortColumn::Date,
            date_descending: false,
            sender_descending: true,
            subject_descending: true,
            selected: None,
            generation: 0,
            loading: false,
        }
    }

    fn refresh(&mut self)
        ensures
            final(self).records() == old(self).records(),
            final(self).same_settings(old(self)),
            final(self).selection() is None,
            final(self).wf(),
    {
        let desc = match self.column {
            SortColumn::Date => self.date_descending,
            SortColumn::Sender => self.sender_descending,
            SortColumn::Subject => self.subject_descending,
        };
        self.display = project(&self.authoritative, self.query.as_str(), self.column, desc);
        self.selected = None;
    }

    /// Replaces the records, clears the selection and recomputes the list.
    pub fn set_authoritative(&mut self, records: Vec<MessageRecord>)
        ensures
            final(self).records() == records@,
            final(self).same_settings(old(self)),
            final(self).selection() is None,
            final(self).wf(),
    {
        self.authoritative = records;
        self.refresh();
    }

    /// Sets the search text and recomputes the list.
    pub fn set_search_query(&mut self, text: String)
        ensures
            final(self).records() == old(self).records(),
            final(self).query_text() == text@,
            final(self).sort_column() == old(self).sort_column(),
            final(self).direction(SortColumn::Date) == old(self).direction(SortColumn::Date),
            final(self).direction(SortColumn::Sender) == old(self).direction(SortColumn::Sender),
            final(self).direction(SortColumn::Subject) == old(self).direction(SortColumn::Subject),
            final(self).load_tag() == old(self).load_tag(),
            final(self).pending() == old(self).pending(),
            final(self).selection() is None,
            final(self).wf(),
    {
        self.query = text;
        self.refresh();
    }

    /// Sorts by `col` in the given direction, which that column remembers.
    pub fn set_sort(&mut self, col: SortColumn, descending: bool)
        ensures
            final(self).records() == old(self).records(),
            final(self).query_text() == old(self).query_text(),
            final(self).sort_column() == col,
            final(self).descending() == descending,
            forall|c: SortColumn| c != col ==> final(self).direction(c) == old(self).direction(c),
            final(self).load_tag() == old(self).load_tag(),
            final(self).pending() == old(self).pending(),
            final(self).selection() is None,
            final(self).wf(),
    {
        self.column = col;
        match col {
            SortColumn::Date => self.date_descending = descending,
            SortColumn::Sender => self.sender_descending = descending,
            SortColumn::Subject => self.subject_descending = descending,
        }
        self.refresh();
    }

    /// A click on a column header: the active column flips its direction;
    /// another column becomes active in the direction it last had.
    pub fn click_column(&mut self, col: SortColumn)
        ensures
            final(self).records() == old(self).records(),
            final(self).query_text() == old(self).query_text(),
            final(self).sort_column() == col,
            col == old(self).sort_column() ==> final(self).descending() == !old(self).descending(),
            col != old(self).sort_column() ==> final(self).descending() == old(self).direction(col),
            forall|c: SortColumn| c != col ==> final(self).direction(c) == old(self).direction(c),
            final(self).load_tag() == old(self).load_tag(),
            final(self).pending() == old(self).pending(),
            final(self).selection() is None,
            final(self).wf(),
    {
        if col == self.column {
            match col {
                SortColumn::Date => self.date_descending = !self.date_descending,
                SortColumn::Sender => self.sender_descending = !self.sender_descending,
                SortColumn::Subject => self.subject_descending = !self.subject_descending,
            }
        } else {
            self.column = col;
        }
        self.refresh();
    }

    /// Selects row `index`. An unread message has to be renamed to its read
    /// path by the caller, who then reports the outcome to `finish_read`.
    pub fn select(&mut self, index: usize) -> (r: SelectOutcome)
        requires
            old(self).wf(),
        ensures
            final(self).wf(),
            final(self).records() == old(self).records(),
            final(self).rows() == old(self).rows(),
            final(self).same_settings(old(self)),
            index >= old(self).rows().len() ==> r is OutOfRange && final(self).selection()
                == old(self).selection(),
            index < old(self).rows().len() ==> final(self).selection() == Some(index),
            index < old(self).rows().len() && old(self).shown(index as int).is_read ==> r is Selected,
            index < old(self).rows().len() && !old(self).shown(index as int).is_read ==> (
            match r {
                SelectOutcome::Rename(from, to) => from@ == old(self).shown(index as int).path@
                    && to@ == read_target(from@),
                _ => false,
            }),
    {
        if index >= self.display.len() {
            return SelectOutcome::OutOfRange;
        }
        self.selected = Some(index);
        let pos = self.display[index];
        let rec = &self.authoritative[pos];
        if rec.is_read {
            SelectOutcome::Selected
        } else {
            let to = read_target_path(rec.path.as_str());
            SelectOutcome::Rename(rec.path.clone(), to)
        }
    }

    /// Takes the outcome of a read rename: where it succeeded, every record
    /// at `from` moves to its read path and is marked read; where it failed,
    /// nothing changes.
    pub fn finish_read(&mut self, from: &str, renamed: bool)
        requires
            old(self).wf(),
        ensures
            final(self).wf(),
            final(self).rows() == old(self).rows(),
            final(self).selection() == old(self).selection(),
            final(self).same_settings(old(self)),
            renamed ==> after_read(old(self).records(), final(self).records(), from@),
            !renamed ==> final(self).records() == old(self).records(),
    {
        if !renamed {
            return;
        }
        let from_s = from.to_owned();
        let mut recs: Vec<MessageRecord> = Vec::new();
        core::mem::swap(&mut recs, &mut self.authoritative);
        let ghost orig = recs@;
        let mut i: usize = 0;
        while i < recs.len()
            invariant
                from_s@ == from@,
                i <= recs@.len(),
                recs@.len() == orig.len(),
                forall|k: int| i <= k < orig.len() ==> recs@[k] == orig[k],
                forall|k: int|
                    0 <= k < i ==> if (#[trigger] orig[k]).path@ == from@ {
                        read_moved(orig[k], recs@[k])
                    } else {
                        recs@[k] == orig[k]
                    },
            decreases orig.len() - i,
        {
            if recs[i].path == from_s {
                let ghost prev = recs@;
                let mut rec = recs.remove(i);
                mark_read(&mut rec);
                recs.insert(i, rec);
                assert(recs@ =~= prev.update(i as int, rec));
            }
            i = i + 1;
        }
        proof {
            lemma_projection_kept(
                orig,
                recs@,
                self.query@,
                self.column,
                self.descending(),
                self.display@,
            );
        }
        self.authoritative = recs;
    }

    /// Removes the records at `path` after their file was archived,
    /// recomputes the list and repairs the selection: the row that slid
    /// into the selected index, else the row before it, else none.
    pub fn remove_archived(&mut self, path: &str)
        requires
            old(self).wf(),
        ensures
            final(self).wf(),
            final(self).records() == without_path(old(self).records(), path@),
            final(self).same_settings(old(self)),
            final(self).selection() == repaired(old(self).selection(), final(self).rows().len()),
    {
        let prev = self.selected;
        let path_s = path.to_owned();
        let mut recs: Vec<MessageRecord> = Vec::new();
        core::mem::swap(&mut recs, &mut self.authoritative);
        let ghost orig = recs@;
        let ghost n = orig.len();
        let mut i: usize = 0;
        let ghost mut j: int = 0;
        assert(orig.subrange(0, 0) =~= Seq::<MessageRecord>::empty());
        assert(orig.subrange(0, n as int) =~= orig);
        while i < recs.len()
            invariant
                path_s@ == path@,
                0 <= j <= n,
                n == orig.len(),
                i == without_path(orig.subrange(0, j), path@).len(),
                recs@ == without_path(orig.subrange(0, j), path@) + orig.subrange(j, n as int),
            decreases n - j,
        {
            let ghost kept = without_path(orig.subrange(0, j), path@);
            proof {
                if j >= n {
                    assert(recs@.len() == i);
                }
            }
            assert(orig.subrange(0, j + 1).drop_last() =~= orig.subrange(0, j));
            assert(orig.subrange(0, j + 1).last() == orig[j]);
            assert(recs@[i as int] == orig[j]);
            if recs[i].path == path_s {
                recs.remove(i);
                assert(recs@ =~= kept + orig.subrange(j + 1, n as int));
            } else {
                assert(recs@ =~= kept.push(orig[j]) + orig.subrange(j + 1, n as int));
                i = i + 1;
            }
            proof {
                j = j + 1;
            }
        }
        proof {
            if j < n {
                assert(recs@.len() > i);
            }
            assert(orig.subrange(j, n as int) =~= Seq::<MessageRecord>::empty());
            assert(recs@ =~= without_path(orig, path@));
        }
        self.authoritative = recs;
        self.refresh();
        let len = self.display.len();
        self.selected = match prev {
            None => None,
            Some(k) => if k < len {
                Some(k)
            } else if k >= 1 && k - 1 < len {
                Some(k - 1)
            } else {
                None
            },
        };
    }

    /// Starts loading another folder: the view empties, and the load gets a
    /// new tag; results that carry an older tag will be dropped.
    pub fn begin_load(&mut self) -> (tag: u64)
        requires
            old(self).load_tag() < u64::MAX,
        ensures
            final(self).wf(),
            tag == old(self).load_tag() + 1,
            final(self).load_tag() == tag,
            final(self).pending(),
            final(self).records().len() == 0,
            final(self).rows().len() == 0,
            final(self).selection() is None,
            final(self).query_text() == old(self).query_text(),
            final(self).sort_column() == old(self).sort_column(),
            forall|c: SortColumn| final(self).direction(c) == old(self).direction(c),
    {
        self.generation = self.generation + 1;
        self.loading = true;
        self.authoritative = Vec::new();
        self.display = Vec::new();
        self.selected = None;
        self.generation
    }

    /// Delivers the records of a load. Those of the newest load, while it is
    /// pending, replace the records; any other delivery is dropped.
    pub fn finish_load(&mut self, tag: u64, records: Vec<MessageRecord>) -> (accepted: bool)
        requires
            old(self).wf(),
        ensures
            accepted == (tag == old(self).load_tag() && old(self).pending()),
            final(self).wf(),
            accepted ==> final(self).records() == records@ && !final(self).pending()
                && final(self).selection() is None,
            !accepted ==> final(self).records() == old(self).records()
                && final(self).rows() == old(self).rows() && final(self).selection()
                == old(self).selection() && final(self).pending() == old(self).pending(),
            final(self).load_tag() == old(self).load_tag(),
            final(self).query_text() == old(self).query_text(),
            final(self).sort_column() == old(self).sort_column(),
            forall|c: SortColumn| final(self).direction(c) == old(self).direction(c),
    {
        if tag != self.generation || !self.loading {
            return false;
        }
        self.loading = false;
        self.set_authoritative(records);
        true
    }

    /// Ends the newest load without records, where its worker went away.
    pub fn load_failed(&mut self, tag: u64) -> (ended: bool)
        requires
            old(self).wf(),
        ensures
            ended == (tag == old(self).load_tag() && old(self).pending()),
            final(self).wf(),
            final(self).pending() == (old(self).pending() && !ended),
            final(self).records() == old(self).records(),
            final(self).rows() == old(self).rows(),
            final(self).selection() == old(self).selection(),
            final(self).load_tag() == old(self).load_tag(),
            final(self).query_text() == old(self).query_text(),
            final(self).sort_column() == old(self).sort_column(),
            forall|c: SortColumn| final(self).direction(c) == old(self).direction(c),
    {
        if tag != self.generation || !self.loading {
            return false;
        }
        self.loading = false;
        true
    }

    /// How many rows the list shows.
    pub fn display_len(&self) -> (n: usize)
        ensures
            n == self.rows().len(),
    {
        self.display.len()
    }

    /// The record shown in row `k`.
    pub fn display_record(&self, k: usize) -> (r: &MessageRecord)
        requires
            self.wf(),
            k < self.rows().len(),
        ensures
            *r == self.shown(k as int),
    {
        &self.authoritative[self.display[k]]
    }

    /// The record of the selected row, if a row is selected.
    pub fn selected_record(&self) -> (r: Option<&MessageRecord>)
        requires
            self.wf(),
        ensures
            self.selection() is None ==> r is None,
            self.selection() matches Some(k) ==> r matches Some(x) && *x == self.shown(k as int),
    {
        match self.selected {
            None => None,
            Some(k) => Some(&self.authoritative[self.display[k]]),
        }
    }
}

/// A projection stays one when the records keep the fields it reads.
proof fn lemma_projection_kept(
    a: Seq<MessageRecord>,
    b: Seq<MessageRecord>,
    q: Seq<char>,
    col: SortColumn,
    desc: bool,
    d: Seq<usize>,
)
    requires
        is_projection(a, q, col, desc, d),
        a.len() == b.len(),
        forall|i: int|
            0 <= i < a.len() ==> {
                &&& (#[trigger] b[i]).timestamp == a[i].timestamp
                &&& b[i].from@ == a[i].from@
                &&& b[i].subject@ == a[i].subject@
                &&& b[i].date_full@ == a[i].date_full@
            },
    ensures
        is_projection(b, q, col, desc, d),
{
    assert forall|x: int, y: int| 0 <= x < y < d.len() implies #[trigger] before(
        b,
        col,
        desc,
        d[x] as int,
        d[y] as int,
    ) by {
        assert(before(a, col, desc, d[x] as int, d[y] as int));
        assert(d[x] < a.len() && d[y] < a.len());
        assert(b[d[x] as int].timestamp == a[d[x] as int].timestamp);
        assert(b[d[y] as int].timestamp == a[d[y] as int].timestamp);
    }
    assert forall|k: int| 0 <= k < d.len() implies (#[trigger] d[k]) < b.len() && query_matches(
        b[d[k] as int],
        q,
    ) by {
        assert(b[d[k] as int].timestamp == a[d[k] as int].timestamp);
    }
    assert forall|i: usize| i < b.len() && query_matches(b[i as int], q) implies d.contains(i) by {
        assert(b[i as int].timestamp == a[i as int].timestamp);
        assert(query_matches(a[i as int], q));
    }
}

/// Lower-casing `q` followed by `s` begins with lower-casing `q`. This
/// holds for most text, but not where a final capital sigma of `q` stops
/// being final (`"AΣ"` followed by `"B"`).
pub open spec fn lower_extends(q: Seq<char>, s: Seq<char>) -> bool {
    &&& lower(q).len() <= lower(q + s).len()
    &&& lower(q + s).subrange(0, lower(q).len() as int) == lower(q)
}

/// A query's matches include those of any longer query that begins with it.
proof fn lemma_matches_prefix(r: MessageRecord, q: Seq<char>, s: Seq<char>)
    requires
        query_matches(r, q + s),
        all_ws(q) || lower_extends(q, s),
    ensures
        query_matches(r, q),
{
    if !all_ws(q) {
        let k = choose|i: int| 0 <= i < q.len() && !crate::text::is_ws(q[i]);
        assert((q + s)[k] == q[k]);
        let lq = lower(q);
        let lqs = lower(q + s);
        assert forall|t: Seq<char>| contains(t, lqs) implies contains(t, lq) by {
            let i = choose|i: int| occurs_at(t, lqs, i, false);
            assert forall|m: int| 0 <= m < lq.len() implies crate::text::char_eq(
                #[trigger] t[i + m],
                lq[m],
                false,
            ) by {
                assert(crate::text::char_eq(t[i + m], lqs[m], false));
                assert(lqs.subrange(0, lq.len() as int)[m] == lq[m]);
            }
            assert(occurs_at(t, lq, i, false));
        }
    }
}

/// Searching narrows: the list under a query is drawn from the records, and
/// holds every row of the list under any longer query that begins with it,
/// wherever lower-casing the longer query begins with the lower-cased query.
pub proof fn lemma_search_narrows(
    rs: Seq<MessageRecord>,
    q: Seq<char>,
    suffix: Seq<char>,
    col: SortColumn,
    desc: bool,
    d: Seq<usize>,
    d_longer: Seq<usize>,
)
    requires
        is_projection(rs, q, col, desc, d),
        is_projection(rs, q + suffix, col, desc, d_longer),
        all_ws(q) || lower_extends(q, suffix),
    ensures
        forall|k: int| 0 <= k < d.len() ==> (#[trigger] d[k]) < rs.len(),
        forall|k: int| 0 <= k < d_longer.len() ==> d.contains(#[trigger] d_longer[k]),
{
    assert forall|k: int| 0 <= k < d_longer.len() implies d.contains(#[trigger] d_longer[k]) by {
        let i = d_longer[k];
        assert(i < rs.len() && query_matches(rs[i as int], q + suffix));
        lemma_matches_prefix(rs[i as int], q, suffix);
    }
}

/// Sorting is repeatable: two lists of the same records under the same
/// query and sort are the same list.
pub proof fn lemma_sort_repeatable(
    rs: Seq<MessageRecord>,
    q: Seq<char>,
    col: SortColumn,
    desc: bool,
    d1: Seq<usize>,
    d2: Seq<usize>,
)
    requires
        is_projection(rs, q, col, desc, d1),
        is_projection(rs, q, col, desc, d2),
    ensures
        d1 == d2,
{
    assert forall|x: usize| d1.contains(x) <==> d2.contains(x) by {
        if d1.contains(x) {
            let k = choose|k: int| 0 <= k < d1.len() && d1[k] == x;
            assert(d1[k] < rs.len());
        }
        if d2.contains(x) {
            let k = choose|k: int| 0 <= k < d2.len() && d2[k] == x;
            assert(d2[k] < rs.len());
        }
    }
    lemma_sorted_unique(rs, col, desc, d1, d2);
}

/// Removing a path's records leaves none with that path, and as many fewer
/// records as there were with it.
pub proof fn lemma_without_path(rs: Seq<MessageRecord>, p: Seq<char>)
    ensures
        without_path(rs, p).len() + count_path(rs, p) == rs.len(),
        forall|k: int| 0 <= k < without_path(rs, p).len() ==> (#[trigger] without_path(rs, p)[k]).path@ != p,
    decreases rs.len(),
{
    if rs.len() > 0 {
        lemma_without_path(rs.drop_last(), p);
    }
}

/// Where exactly one record has path `p`, the count is one.
proof fn lemma_count_path_single(rs: Seq<MessageRecord>, p: Seq<char>, i: int)
    requires
        0 <= i < rs.len(),
        rs[i].path@ == p,
        forall|j: int| 0 <= j < rs.len() && j != i ==> (#[trigger] rs[j]).path@ != p,
    ensures
        count_path(rs, p) == 1,
    decreases rs.len(),
{
    if i == rs.len() - 1 {
        lemma_count_path_none(rs.drop_last(), p);
    } else {
        assert forall|j: int| 0 <= j < rs.drop_last().len() && j != i implies (#[trigger] rs.drop_last()[j]).path@ != p by {
            assert(rs.drop_last()[j] == rs[j]);
        }
        assert(rs.last() == rs[rs.len() - 1]);
        lemma_count_path_single(rs.drop_last(), p, i);
    }
}

/// Where no record has path `p`, the count is zero.
proof fn lemma_count_path_none(rs: Seq<MessageRecord>, p: Seq<char>)
    requires
        forall|j: int| 0 <= j < rs.len() ==> (#[trigger] rs[j]).path@ != p,
    ensures
        count_path(rs, p) == 0,
    decreases rs.len(),
{
    if rs.len() > 0 {
        assert(rs.last() == rs[rs.len() - 1]);
        assert forall|j: int| 0 <= j < rs.drop_last().len() implies (#[trigger] rs.drop_last()[j]).path@ != p by {
            assert(rs.drop_last()[j] == rs[j]);
        }
        lemma_count_path_none(rs.drop_last(), p);
    }
}

/// Archiving removes exactly one record: where one record has the archived
/// path, the records that remain are one fewer and none has that path.
pub proof fn lemma_archive_removes_one(rs: Seq<MessageRecord>, p: Seq<char>, i: int)
    requires
        0 <= i < rs.len(),
        rs[i].path@ == p,
        forall|j: int| 0 <= j < rs.len() && j != i ==> (#[trigger] rs[j]).path@ != p,
    ensures
        without_path(rs, p).len() == rs.len() - 1,
        forall|k: int| 0 <= k < without_path(rs, p).len() ==> (#[trigger] without_path(rs, p)[k]).path@ != p,
{
    lemma_without_path(rs, p);
    lemma_count_path_single(rs, p, i);
}

/// Searching never reorders: two records shown under two queries with the
/// same sort stand in the same order in both lists.
pub proof fn lemma_search_keeps_order(
    rs: Seq<MessageRecord>,
    q1: Seq<char>,
    q2: Seq<char>,
    col: SortColumn,
    desc: bool,
    d1: Seq<usize>,
    d2: Seq<usize>,
    a: int,
    b: int,
    c: int,
    e: int,
)
    requires
        is_projection(rs, q1, col, desc, d1),
        is_projection(rs, q2, col, desc, d2),
        0 <= a < b < d1.len(),
        0 <= c < d2.len(),
        0 <= e < d2.len(),
        d2[c] == d1[a],
        d2[e] == d1[b],
    ensures
        c < e,
{
    assert(before(rs, col, desc, d1[a] as int, d1[b] as int));
    if e < c {
        assert(before(rs, col, desc, d2[e] as int, d2[c] as int));
        lemma_before_transitive(rs, col, desc, d1[a] as int, d1[b] as int, d1[a] as int);
    }
}

} // verus!
