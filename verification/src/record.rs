//! Records: rows as lists of column and value, and the two pure operations
//! on them, projection onto a column list and matching against a query.

use crate::text::{same_text, texts};
use vstd::prelude::*;

verus! {

/// What a record is: its pairs of column and value, in order.
pub type RecordView = Seq<(Seq<char>, Seq<char>)>;

/// The pairs of texts that a list of string pairs holds.
pub open spec fn pairs_view(pairs: Seq<(String, String)>) -> RecordView {
    pairs.map_values(|e: (String, String)| (e.0@, e.1@))
}

/// Index of the first pair of `record` for `column`, or the length of
/// `record` where it has none.
pub open spec fn position(record: RecordView, column: Seq<char>) -> int
    decreases record.len(),
{
    if record.len() == 0 || record[0].0 == column {
        0
    } else {
        1 + position(record.drop_first(), column)
    }
}

/// The value that `record` has for `column`, if it has one.
pub open spec fn lookup(record: RecordView, column: Seq<char>) -> Option<Seq<char>> {
    let at = position(record, column);
    if at < record.len() {
        Some(record[at].1)
    } else {
        None
    }
}

/// The value that `record` has for `column`, or the empty string.
pub open spec fn value_of(record: RecordView, column: Seq<char>) -> Seq<char> {
    match lookup(record, column) {
        Some(value) => value,
        None => Seq::empty(),
    }
}

/// The projection of `record` onto `columns`: one pair for each column, in
/// the columns' order, with the empty string where the record has no value.
pub open spec fn normalized(columns: Seq<Seq<char>>, record: RecordView) -> RecordView {
    Seq::new(columns.len(), |i: int| (columns[i], value_of(record, columns[i])))
}

/// Whether `record` has, for every pair of `query`, that value for that
/// column.
pub open spec fn matches_query(record: RecordView, query: RecordView) -> bool {
    forall|i: int| 0 <= i < query.len() ==> lookup(record, (#[trigger] query[i]).0) == Some(query[i].1)
}

/// `record` with `patch` laid over it, projected onto `columns`.
pub open spec fn patched(columns: Seq<Seq<char>>, record: RecordView, patch: RecordView) -> RecordView {
    normalized(columns, patch + record)
}

/// The text that an optional string holds.
pub open spec fn text_of(found: Option<&String>) -> Option<Seq<char>> {
    match found {
        Some(s) => Some(s@),
        None => None,
    }
}

/// What `position` finds: no pair for the column before it, and one at it
/// where it is inside the record.
pub proof fn lemma_position(record: RecordView, column: Seq<char>)
    ensures
        0 <= position(record, column) <= record.len(),
        forall|j: int| 0 <= j < position(record, column) ==> record[j].0 != column,
        position(record, column) < record.len() ==> record[position(record, column)].0 == column,
    decreases record.len(),
{
    if record.len() == 0 || record[0].0 == column {
    } else {
        let tail = record.drop_first();
        lemma_position(tail, column);
        assert forall|j: int| 0 <= j < position(record, column) implies record[j].0 != column by {
            if j > 0 {
                assert(record[j] == tail[j - 1]);
            }
        }
    }
}

/// `position` is `at`, where no pair before `at` is for the column and `at`
/// is the end of the record or a pair for it.
pub proof fn lemma_position_at(record: RecordView, column: Seq<char>, at: int)
    requires
        0 <= at <= record.len(),
        forall|j: int| 0 <= j < at ==> record[j].0 != column,
        at == record.len() || record[at].0 == column,
    ensures
        position(record, column) == at,
    decreases at,
{
    if at > 0 {
        let tail = record.drop_first();
        assert forall|j: int| 0 <= j < at - 1 implies tail[j].0 != column by {
            assert(tail[j] == record[j + 1]);
        }
        assert(record[0].0 != column);
        lemma_position_at(tail, column, at - 1);
    }
}

/// Laying a patch over a record: the patch decides where it has the column,
/// the record where the patch has not.
pub proof fn lemma_lookup_concat(patch: RecordView, record: RecordView, column: Seq<char>)
    ensures
        lookup(patch + record, column) == match lookup(patch, column) {
            Some(value) => Some(value),
            None => lookup(record, column),
        },
{
    let joined = patch + record;
    lemma_position(patch, column);
    lemma_position(record, column);
    let p = position(patch, column);
    if p < patch.len() {
        assert forall|j: int| 0 <= j < p implies joined[j].0 != column by {
            assert(joined[j] == patch[j]);
        }
        assert(joined[p] == patch[p]);
        lemma_position_at(joined, column, p);
    } else {
        let r = position(record, column);
        assert forall|j: int| 0 <= j < p + r implies joined[j].0 != column by {
            if j < p {
                assert(joined[j] == patch[j]);
            } else {
                assert(joined[j] == record[j - p]);
            }
        }
        if r < record.len() {
            assert(joined[p + r] == record[r]);
        }
        lemma_position_at(joined, column, p + r);
    }
}

/// A projection holds, for each of its columns, the value it was given.
pub proof fn lemma_lookup_normalized(columns: Seq<Seq<char>>, record: RecordView, i: int)
    requires
        0 <= i < columns.len(),
    ensures
        lookup(normalized(columns, record), columns[i]) == Some(value_of(record, columns[i])),
{
    let n = normalized(columns, record);
    lemma_position(n, columns[i]);
    let at = position(n, columns[i]);
    if at >= n.len() {
        assert(n[i].0 == columns[i]);
    }
}

/// Projecting a projection changes nothing.
pub proof fn lemma_normalized_fixed(columns: Seq<Seq<char>>, record: RecordView)
    ensures
        normalized(columns, normalized(columns, record)) == normalized(columns, record),
{
    let n = normalized(columns, record);
    assert forall|i: int| 0 <= i < columns.len() implies normalized(columns, n)[i] == n[i] by {
        lemma_lookup_normalized(columns, record, i);
    }
    assert(normalized(columns, n) =~= n);
}

/// The empty query holds of every record.
pub proof fn lemma_empty_query_matches(record: RecordView)
    ensures
        matches_query(record, Seq::empty()),
{
}

/// One row: pairs of column and value. Where a column comes twice, the
/// first pair is the one that counts.
#[derive(Debug, Clone, PartialEq, Eq)]
pub struct Record {
    entries: Vec<(String, String)>,
}

impl View for Record {
    type V = RecordView;

    closed spec fn view(&self) -> RecordView {
        pairs_view(self.entries@)
    }
}

/// The records that a list holds.
pub open spec fn records_view(list: Seq<Record>) -> Seq<RecordView> {
    list.map_values(|r: Record| r@)
}

impl Record {
    /// The record without pairs.
    pub fn new() -> (out: Record)
        ensures
            out@ == Seq::<(Seq<char>, Seq<char>)>::empty(),
    {
        let out = Record { entries: Vec::new() };
        assert(out@ =~= Seq::<(Seq<char>, Seq<char>)>::empty());
        out
    }

    /// The record of the pairs given, in their order.
    pub fn from_pairs(pairs: Vec<(String, String)>) -> (out: Record)
        ensures
            out@ == pairs_view(pairs@),
    {
        Record { entries: pairs }
    }

    /// The pairs of this record, in their order.
    pub fn pairs(&self) -> (out: &Vec<(String, String)>)
        ensures
            pairs_view(out@) == self@,
    {
        &self.entries
    }

    /// Number of pairs.
    pub fn len(&self) -> (out: usize)
        ensures
            out == self@.len(),
    {
        self.entries.len()
    }

    /// Adds a pair at the end.
    pub fn push(&mut self, column: String, value: String)
        ensures
            final(self)@ == old(self)@.push((column@, value@)),
    {
        self.entries.push((column, value));
        assert(self@ =~= old(self)@.push((column@, value@)));
    }

    /// The value of the first pair for `column`.
    pub fn get(&self, column: &str) -> (out: Option<&String>)
        ensures
            text_of(out) == lookup(self@, column@),
    {
        let mut i: usize = 0;
        while i < self.entries.len()
            invariant
                i <= self.entries@.len(),
                forall|j: int| 0 <= j < i ==> self@[j].0 != column@,
            decreases self.entries@.len() - i,
        {
            if same_text(self.entries[i].0.as_str(), column) {
                proof {
                    lemma_position_at(self@, column@, i as int);
                }
                return Some(&self.entries[i].1);
            }
            i += 1;
        }
        proof {
            lemma_position_at(self@, column@, i as int);
        }
        None
    }

    /// A copy of this record.
    pub fn copy(&self) -> (out: Record)
        ensures
            out@ == self@,
    {
        let mut entries: Vec<(String, String)> = Vec::new();
        let mut i: usize = 0;
        while i < self.entries.len()
            invariant
                i <= self.entries@.len(),
                entries@.len() == i,
                forall|j: int| 0 <= j < i ==> pairs_view(entries@)[j] == self@[j],
            decreases self.entries@.len() - i,
        {
            entries.push((self.entries[i].0.clone(), self.entries[i].1.clone()));
            i += 1;
        }
        let out = Record { entries };
        assert(out@ =~= self@);
        out
    }

    /// The pairs of `self` followed by those of `other`.
    pub fn concat(&self, other: &Record) -> (out: Record)
        ensures
            out@ == self@ + other@,
    {
        let mut out = self.copy();
        let mut i: usize = 0;
        while i < other.entries.len()
            invariant
                i <= other.entries@.len(),
                out@ == self@ + other@.subrange(0, i as int),
            decreases other.entries@.len() - i,
        {
            out.push(other.entries[i].0.clone(), other.entries[i].1.clone());
            assert(other@.subrange(0, i + 1) =~= other@.subrange(0, i as int).push(other@[i as int]));
            assert(self@ + other@.subrange(0, i + 1) =~= (self@ + other@.subrange(0, i as int)).push(
                other@[i as int],
            ));
            i += 1;
        }
        assert(other@.subrange(0, i as int) =~= other@);
        out
    }
}

/// Projects a record onto a column list: the columns in their order, the
/// empty string for a column the record lacks, nothing for a column the list
/// lacks.
pub fn normalize(columns: &Vec<String>, record: &Record) -> (out: Record)
    ensures
        out@ == normalized(texts(columns@), record@),
{
    let mut out = Record::new();
    let mut i: usize = 0;
    while i < columns.len()
        invariant
            i <= columns@.len(),
            out@.len() == i,
            forall|j: int| 0 <= j < i ==> out@[j] == normalized(texts(columns@), record@)[j],
        decreases columns@.len() - i,
    {
        let value = match record.get(columns[i].as_str()) {
            Some(found) => found.clone(),
            None => String::new(),
        };
        out.push(columns[i].clone(), value);
        i += 1;
    }
    assert(out@ =~= normalized(texts(columns@), record@));
    out
}

/// Whether a record satisfies a query: every pair of the query is found in
/// the record with an equal value.
pub fn matches(record: &Record, query: &Record) -> (out: bool)
    ensures
        out == matches_query(record@, query@),
{
    let pairs = query.pairs();
    let mut i: usize = 0;
    while i < pairs.len()
        invariant
            i <= pairs@.len(),
            pairs_view(pairs@) == query@,
            forall|j: int| 0 <= j < i ==> lookup(record@, (#[trigger] query@[j]).0) == Some(query@[j].1),
        decreases pairs@.len() - i,
    {
        let same = match record.get(pairs[i].0.as_str()) {
            Some(found) => same_text(found.as_str(), pairs[i].1.as_str()),
            None => false,
        };
        assert(query@[i as int] == (pairs@[i as int].0@, pairs@[i as int].1@));
        if !same {
            return false;
        }
        i += 1;
    }
    true
}

} // verus!
