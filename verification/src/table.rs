//! Tables: a fixed column list and the rows kept under it, every row being
//! the projection of what was supplied onto the columns.

use crate::record::{
    lemma_empty_query_matches, lemma_normalized_fixed, matches_query, normalize, normalized, patched, records_view,
    Record, RecordView,
};
use crate::text::{copy_texts, texts};
use vstd::prelude::*;

verus! {

/// What a table is: its columns and its rows, both in order.
pub struct TableView {
    pub columns: Seq<Seq<char>>,
    pub records: Seq<RecordView>,
}

/// Whether every row is its own projection onto the columns.
pub open spec fn well_formed(t: TableView) -> bool {
    forall|i: int|
        0 <= i < t.records.len() ==> #[trigger] normalized(t.columns, t.records[i]) == t.records[i]
}

/// The rows that do (`wanted`) or do not satisfy `query`.
pub open spec fn satisfying(query: RecordView, wanted: bool) -> spec_fn(RecordView) -> bool {
    |r: RecordView| matches_query(r, query) == wanted
}

/// The empty table over `columns`.
pub open spec fn empty_table(columns: Seq<Seq<char>>) -> TableView {
    TableView { columns, records: Seq::empty() }
}

/// The table over `columns` whose rows are the projections of `records`.
pub open spec fn projected(columns: Seq<Seq<char>>, records: Seq<RecordView>) -> TableView {
    TableView { columns, records: Seq::new(records.len(), |i: int| normalized(columns, records[i])) }
}

/// `t` with the projection of `record` as a new last row.
pub open spec fn inserted(t: TableView, record: RecordView) -> TableView {
    TableView { columns: t.columns, records: t.records.push(normalized(t.columns, record)) }
}

/// `t` with `patch` laid over every row that satisfies `query`.
pub open spec fn updated(t: TableView, query: RecordView, patch: RecordView) -> TableView {
    TableView {
        columns: t.columns,
        records: Seq::new(
            t.records.len(),
            |i: int|
                if matches_query(t.records[i], query) {
                    patched(t.columns, t.records[i], patch)
                } else {
                    t.records[i]
                },
        ),
    }
}

/// `t` without the rows that satisfy `query`.
pub open spec fn deleted(t: TableView, query: RecordView) -> TableView {
    TableView { columns: t.columns, records: t.records.filter(satisfying(query, false)) }
}

/// The rows of `t` that satisfy `query`, or all of them where there is none.
pub open spec fn selected(t: TableView, query: Option<RecordView>) -> Seq<RecordView> {
    match query {
        Some(q) => t.records.filter(satisfying(q, true)),
        None => t.records,
    }
}

/// The query that an optional record stands for.
pub open spec fn query_view(query: Option<&Record>) -> Option<RecordView> {
    match query {
        Some(q) => Some(q@),
        None => None,
    }
}

/// Filtering a sequence with one more element at its end.
pub proof fn lemma_filter_push<A>(s: Seq<A>, x: A, pred: spec_fn(A) -> bool)
    ensures
        s.push(x).filter(pred) == if pred(x) {
            s.filter(pred).push(x)
        } else {
            s.filter(pred)
        },
{
    reveal(Seq::filter);
    assert(s.push(x).drop_last() =~= s);
}

/// Inserting, updating and deleting keep a table well formed.
pub proof fn lemma_well_formed_kept(t: TableView, record: RecordView, query: RecordView, patch: RecordView)
    requires
        well_formed(t),
    ensures
        well_formed(inserted(t, record)),
        well_formed(updated(t, query, patch)),
        well_formed(deleted(t, query)),
{
    lemma_normalized_fixed(t.columns, record);
    let ins = inserted(t, record);
    assert forall|i: int| 0 <= i < ins.records.len() implies #[trigger] normalized(
        ins.columns,
        ins.records[i],
    ) == ins.records[i] by {
        if i < t.records.len() {
            assert(ins.records[i] == t.records[i]);
        }
    }
    let upd = updated(t, query, patch);
    assert forall|i: int| 0 <= i < upd.records.len() implies #[trigger] normalized(
        upd.columns,
        upd.records[i],
    ) == upd.records[i] by {
        lemma_normalized_fixed(t.columns, patch + t.records[i]);
    }
    let del = deleted(t, query);
    assert forall|i: int| 0 <= i < del.records.len() implies #[trigger] normalized(
        del.columns,
        del.records[i],
    ) == del.records[i] by {
        assert(del.records.contains(del.records[i]));
        lemma_filter_subset(t.records, satisfying(query, false), del.records[i]);
        let j = choose|j: int| 0 <= j < t.records.len() && t.records[j] == del.records[i];
        assert(normalized(t.columns, t.records[j]) == t.records[j]);
    }
}

/// What a filtered sequence holds, the sequence holds.
pub proof fn lemma_filter_subset<A>(s: Seq<A>, pred: spec_fn(A) -> bool, x: A)
    requires
        s.filter(pred).contains(x),
    ensures
        s.contains(x),
    decreases s.len(),
{
    reveal(Seq::filter);
    if s.len() > 0 {
        let front = s.drop_last();
        if front.filter(pred).contains(x) {
            lemma_filter_subset(front, pred, x);
            let j = choose|j: int| 0 <= j < front.len() && front[j] == x;
            assert(s[j] == x);
        } else {
            let f = s.filter(pred);
            let k = choose|k: int| 0 <= k < f.len() && f[k] == x;
            if pred(s.last()) {
                if k < f.len() - 1 {
                    assert(front.filter(pred)[k] == x);
                }
                assert(s[s.len() - 1] == x);
            } else {
                assert(front.filter(pred)[k] == x);
            }
        }
    }
}

/// A named collection of rows under a fixed column list.
#[derive(Debug, Clone, PartialEq, Eq)]
pub struct Table {
    columns: Vec<String>,
    records: Vec<Record>,
}

impl View for Table {
    type V = TableView;

    closed spec fn view(&self) -> TableView {
        TableView { columns: texts(self.columns@), records: records_view(self.records@) }
    }
}

/// Copies the rows of `list` that do (`wanted`) or do not satisfy `query`.
fn filter_records(list: &Vec<Record>, query: &Record, wanted: bool) -> (out: Vec<Record>)
    ensures
        records_view(out@) == records_view(list@).filter(satisfying(query@, wanted)),
{
    let ghost all = records_view(list@);
    let ghost pred = satisfying(query@, wanted);
    let mut out: Vec<Record> = Vec::new();
    let mut i: usize = 0;
    assert(all.subrange(0, 0) =~= Seq::<RecordView>::empty());
    assert(records_view(out@) =~= Seq::<RecordView>::empty());
    proof {
        reveal(Seq::filter);
    }
    while i < list.len()
        invariant
            i <= list@.len(),
            all == records_view(list@),
            pred == satisfying(query@, wanted),
            records_view(out@) == all.subrange(0, i as int).filter(pred),
        decreases list@.len() - i,
    {
        let ghost before = records_view(out@);
        proof {
            assert(all.subrange(0, i + 1) =~= all.subrange(0, i as int).push(all[i as int]));
            lemma_filter_push(all.subrange(0, i as int), all[i as int], pred);
        }
        if crate::record::matches(&list[i], query) == wanted {
            out.push(list[i].copy());
            assert(records_view(out@) =~= before.push(all[i as int]));
        }
        i += 1;
    }
    assert(all.subrange(0, i as int) =~= all);
    out
}

impl Table {
    /// Whether every row is its own projection onto the columns.
    pub open spec fn wf(&self) -> bool {
        well_formed(self@)
    }

    /// The empty table over `columns`.
    pub fn new(columns: Vec<String>) -> (out: Table)
        ensures
            out@ == empty_table(texts(columns@)),
            out.wf(),
    {
        let out = Table { columns, records: Vec::new() };
        assert(out@.records =~= Seq::<RecordView>::empty());
        out
    }

    /// The table over `columns` that holds the projection of each of
    /// `records`, in their order.
    pub fn from_parts(columns: Vec<String>, records: Vec<Record>) -> (out: Table)
        ensures
            out@ == projected(texts(columns@), records_view(records@)),
            out.wf(),
    {
        let mut rows: Vec<Record> = Vec::new();
        let mut i: usize = 0;
        while i < records.len()
            invariant
                i <= records@.len(),
                rows@.len() == i,
                forall|j: int|
                    0 <= j < i ==> (#[trigger] rows@[j])@ == normalized(texts(columns@), records@[j]@),
            decreases records@.len() - i,
        {
            rows.push(normalize(&columns, &records[i]));
            i += 1;
        }
        let out = Table { columns, records: rows };
        proof {
            let want = projected(texts(columns@), records_view(records@));
            assert(out@.records =~= want.records);
            assert forall|j: int| 0 <= j < out@.records.len() implies #[trigger] normalized(
                out@.columns,
                out@.records[j],
            ) == out@.records[j] by {
                lemma_normalized_fixed(texts(columns@), records@[j]@);
            }
        }
        out
    }

    /// The columns, in order.
    pub fn columns(&self) -> (out: &Vec<String>)
        ensures
            texts(out@) == self@.columns,
    {
        &self.columns
    }

    /// The rows, in order.
    pub fn records(&self) -> (out: &Vec<Record>)
        ensures
            records_view(out@) == self@.records,
    {
        &self.records
    }

    /// A copy of this table.
    pub fn copy(&self) -> (out: Table)
        ensures
            out@ == self@,
    {
        let columns = copy_texts(&self.columns);
        let mut rows: Vec<Record> = Vec::new();
        let mut i: usize = 0;
        while i < self.records.len()
            invariant
                i <= self.records@.len(),
                rows@.len() == i,
                forall|j: int| 0 <= j < i ==> (#[trigger] rows@[j])@ == self.records@[j]@,
            decreases self.records@.len() - i,
        {
            rows.push(self.records[i].copy());
            i += 1;
        }
        let out = Table { columns, records: rows };
        assert(out@.records =~= self@.records);
        out
    }

    /// Appends the projection of `record` onto the columns.
    pub fn insert(&mut self, record: &Record)
        requires
            old(self).wf(),
        ensures
            final(self)@ == inserted(old(self)@, record@),
            final(self).wf(),
    {
        let row = normalize(&self.columns, record);
        self.records.push(row);
        proof {
            assert(self@.records =~= inserted(old(self)@, record@).records);
            lemma_well_formed_kept(old(self)@, record@, record@, record@);
        }
    }

    /// Lays `patch` over every row that satisfies `query`; the other rows
    /// stay as they are.
    pub fn update(&mut self, query: &Record, patch: &Record)
        requires
            old(self).wf(),
        ensures
            final(self)@ == updated(old(self)@, query@, patch@),
            final(self).wf(),
    {
        let ghost want = updated(self@, query@, patch@);
        let mut rows: Vec<Record> = Vec::new();
        let mut i: usize = 0;
        while i < self.records.len()
            invariant
                i <= self.records@.len(),
                rows@.len() == i,
                want == updated(self@, query@, patch@),
                forall|j: int| 0 <= j < i ==> (#[trigger] rows@[j])@ == want.records[j],
            decreases self.records@.len() - i,
        {
            if crate::record::matches(&self.records[i], query) {
                let merged = patch.concat(&self.records[i]);
                rows.push(normalize(&self.columns, &merged));
            } else {
                rows.push(self.records[i].copy());
            }
            i += 1;
        }
        self.records = rows;
        proof {
            assert(self@.records =~= want.records);
            lemma_well_formed_kept(old(self)@, query@, query@, patch@);
        }
    }

    /// Removes every row that satisfies `query`.
    pub fn delete(&mut self, query: &Record)
        requires
            old(self).wf(),
        ensures
            final(self)@ == deleted(old(self)@, query@),
            final(self).wf(),
    {
        let rows = filter_records(&self.records, query, false);
        self.records = rows;
        proof {
            lemma_well_formed_kept(old(self)@, query@, query@, query@);
        }
    }

    /// Copies of the rows that satisfy `query`, or of all rows where there
    /// is no query, in the table's order.
    pub fn select(&self, query: Option<&Record>) -> (out: Vec<Record>)
        ensures
            records_view(out@) == selected(self@, query_view(query)),
    {
        match query {
            Some(q) => filter_records(&self.records, q, true),
            None => {
                let all = Record::new();
                let out = filter_records(&self.records, &all, true);
                proof {
                    assert forall|i: int| 0 <= i < self@.records.len() implies satisfying(all@, true)(
                        #[trigger] self@.records[i],
                    ) by {
                        lemma_empty_query_matches(self@.records[i]);
                    }
                    lemma_filter_all(self@.records, satisfying(all@, true));
                }
                out
            },
        }
    }
}

/// Filtering by what holds of every element changes nothing.
pub proof fn lemma_filter_all<A>(s: Seq<A>, pred: spec_fn(A) -> bool)
    requires
        forall|i: int| 0 <= i < s.len() ==> pred(#[trigger] s[i]),
    ensures
        s.filter(pred) == s,
    decreases s.len(),
{
    reveal(Seq::filter);
    if s.len() > 0 {
        lemma_filter_all(s.drop_last(), pred);
        assert(s.drop_last().push(s.last()) =~= s);
    }
}

} // verus!
