//! The grid store: typed columns, soft-deleted rows, the trigram index over
//! the indexed text columns and the cached filtered, sorted view.
use vstd::prelude::*;
use vstd::utf8::encode_utf8;
use crate::column::{ColumnData, Value, text_of_value, number_of_value};
use crate::number::{is_nan_bits, lemma_null_number_is_nan, num_key, number_key};
use crate::text::{
    ascii_lower, contains, contains_bytes, has_trigram, join_text, lemma_join_contains_part,
    lemma_lex_total, lemma_lower_occurs, lemma_trigrams_of_occurrence, lex_compare, lex_less,
    lower, occurs_at, trigrams,
};
use crate::trigram::TrigramIndex;
use crate::idmap::{IdMap, hash_bytes, id_hash};
use vstd::string::StrSliceExecFns;

verus! {

broadcast use vstd::std_specs::hash::group_hash_axioms;

/// The direction of the sort.
#[derive(Clone, Copy, PartialEq, Eq, Debug, Structural)]
pub enum SortDir {
    Asc,
    Desc,
    Unsorted,
}

/// The kinds of failure of the store's operations.
#[derive(Clone, Copy, PartialEq, Eq, Debug, Structural)]
pub enum StoreError {
    /// The schema is not valid.
    SchemaError,
    /// An inserted row lacks a text value for the primary key.
    MissingId,
    /// An inserted row repeats the primary key of a live or deleted row.
    DuplicateId,
    /// No live row has the given primary key.
    NotFound,
    /// A column's type is none of "string", "number" or "integer".
    TypeError,
}

/// One column of a schema: its name, its type ("string", "number" or
/// "integer"), and whether it is the primary key and whether it is indexed.
pub struct ColumnDef {
    pub name: String,
    pub kind: String,
    pub primary_key: bool,
    pub indexed: bool,
}

/// A value as a contract sees it.
pub enum ValueView {
    Text(Seq<char>),
    Number(u64),
    Null,
}

impl View for Value {
    type V = ValueView;

    open spec fn view(&self) -> ValueView {
        match self {
            Value::Text(s) => ValueView::Text(s@),
            Value::Number(b) => ValueView::Number(*b),
            Value::Null => ValueView::Null,
        }
    }
}

/// The value of the first field of `row` named `name`.
pub open spec fn field_of(row: Seq<(String, Value)>, name: Seq<char>) -> Option<Value>
    decreases row.len(),
{
    if row.len() == 0 {
        None
    } else if row[0].0@ == name {
        Some(row[0].1)
    } else {
        field_of(row.drop_first(), name)
    }
}

/// What a cell of a column of the given kind reads as once `v` is written to it;
/// `None` stands for a field that the record lacks.
pub open spec fn stored_view(is_text: bool, v: Option<Value>) -> ValueView {
    if is_text {
        match v {
            Some(Value::Text(s)) => ValueView::Text(s@),
            _ => ValueView::Text(Seq::empty()),
        }
    } else {
        match v {
            Some(Value::Number(b)) => if is_nan_bits(b) {
                ValueView::Null
            } else {
                ValueView::Number(b)
            },
            _ => ValueView::Null,
        }
    }
}

/// The spelling of a column type.
pub open spec fn known_kind(k: Seq<char>) -> bool {
    k == seq!['s', 't', 'r', 'i', 'n', 'g'] || k == seq!['n', 'u', 'm', 'b', 'e', 'r'] || k
        == seq!['i', 'n', 't', 'e', 'g', 'e', 'r']
}

pub open spec fn is_text_kind(k: Seq<char>) -> bool {
    k == seq!['s', 't', 'r', 'i', 'n', 'g']
}

/// A schema is valid when it has a column, its names differ, and exactly one
/// column is the primary key, a text column.
pub open spec fn valid_schema(s: Seq<ColumnDef>) -> bool {
    &&& s.len() > 0
    &&& forall|i: int, j: int| 0 <= i < j < s.len() ==> s[i].name@ != s[j].name@
    &&& exists|p: int|
        0 <= p < s.len() && s[p].primary_key && is_text_kind(s[p].kind@) && forall|q: int|
            0 <= q < s.len() && q != p ==> !s[q].primary_key
}

/// Strict order of the view: by the sort column's cells under the direction,
/// ties by row index; by row index when there is no sort.
pub open spec fn row_before(key: Option<(ColumnData, bool)>, a: u32, b: u32) -> bool {
    match key {
        Option::None => a < b,
        Option::Some((data, desc)) => match data {
            ColumnData::Strings(v) => {
                let x = encode_utf8(v@[a as int]@);
                let y = encode_utf8(v@[b as int]@);
                if x == y {
                    a < b
                } else if desc {
                    lex_less(y, x)
                } else {
                    lex_less(x, y)
                }
            },
            ColumnData::Numbers(v) => {
                let x = num_key(v@[a as int]);
                let y = num_key(v@[b as int]);
                if x == y {
                    a < b
                } else if desc {
                    y < x
                } else {
                    x < y
                }
            },
        },
    }
}

/// Every row of `v` comes before the rows that follow it.
pub open spec fn sorted_by(key: Option<(ColumnData, bool)>, v: Seq<u32>) -> bool {
    forall|i: int, j: int| 0 <= i < j < v.len() ==> row_before(key, #[trigger] v[i], #[trigger] v[j])
}

/// The view order is a strict total order.
pub proof fn lemma_before_total(key: Option<(ColumnData, bool)>, a: u32, b: u32)
    ensures
        !row_before(key, a, a),
        !(row_before(key, a, b) && row_before(key, b, a)),
        a != b ==> row_before(key, a, b) || row_before(key, b, a),
{
    match key {
        Option::Some((ColumnData::Strings(v), _)) => {
            lemma_lex_total(encode_utf8(v@[a as int]@), encode_utf8(v@[b as int]@));
        },
        _ => {},
    }
}

/// Two duplicate-free sequences with the same rows, both in view order, are equal.
pub proof fn lemma_sorted_unique(key: Option<(ColumnData, bool)>, v1: Seq<u32>, v2: Seq<u32>)
    requires
        v1.no_duplicates(),
        v2.no_duplicates(),
        forall|x: u32| v1.contains(x) <==> v2.contains(x),
        sorted_by(key, v1),
        sorted_by(key, v2),
    ensures
        v1 == v2,
    decreases v1.len(),
{
    if v1.len() == 0 {
        if v2.len() > 0 {
            assert(v2.contains(v2[0]));
        }
        assert(v1 =~= v2);
    } else {
        assert(v1.contains(v1[0]));
        let j = choose|j: int| 0 <= j < v2.len() && v2[j] == v1[0];
        assert(v2.contains(v2[0]));
        let i = choose|i: int| 0 <= i < v1.len() && v1[i] == v2[0];
        if j > 0 {
            assert(row_before(key, v2[0], v2[j]));
            assert(i != 0);
            assert(row_before(key, v1[0], v1[i]));
            lemma_before_total(key, v1[0], v2[0]);
        }
        let r1 = v1.drop_first();
        let r2 = v2.drop_first();
        assert forall|x: u32| r1.contains(x) <==> r2.contains(x) by {
            if r1.contains(x) {
                let k = choose|k: int| 0 <= k < r1.len() && r1[k] == x;
                assert(v1[k + 1] == x);
                assert(v1.contains(x));
                let k2 = choose|k2: int| 0 <= k2 < v2.len() && v2[k2] == x;
                assert(k2 != 0);
                assert(r2[k2 - 1] == x);
            }
            if r2.contains(x) {
                let k = choose|k: int| 0 <= k < r2.len() && r2[k] == x;
                assert(v2[k + 1] == x);
                assert(v2.contains(x));
                let k1 = choose|k1: int| 0 <= k1 < v1.len() && v1[k1] == x;
                assert(k1 != 0);
                assert(r1[k1 - 1] == x);
            }
        }
        assert forall|a: int, b: int| 0 <= a < b < r1.len() implies row_before(key, #[trigger] r1[a], #[trigger] r1[b]) by {
            assert(row_before(key, v1[a + 1], v1[b + 1]));
        }
        assert forall|a: int, b: int| 0 <= a < b < r2.len() implies row_before(key, #[trigger] r2[a], #[trigger] r2[b]) by {
            assert(row_before(key, v2[a + 1], v2[b + 1]));
        }
        lemma_sorted_unique(key, r1, r2);
        assert(v1 =~= seq![v1[0]] + r1);
        assert(v2 =~= seq![v2[0]] + r2);
    }
}

/// The number of `false` entries of `d`.
pub open spec fn count_live(d: Seq<bool>) -> nat
    decreases d.len(),
{
    if d.len() == 0 {
        0
    } else {
        count_live(d.drop_last()) + if d.last() {
            0nat
        } else {
            1nat
        }
    }
}

/// `lo` and `hi` clamp the window of `count` entries from `start` to `len`.
pub open spec fn window(start: int, count: int, len: int) -> (int, int) {
    let lo = if start < len {
        start
    } else {
        len
    };
    let hi = if start + count < len {
        start + count
    } else {
        len
    };
    (lo, hi)
}

/// A named column and its cells.
pub struct Column {
    name: String,
    data: ColumnData,
}

/// Filter, sort and the memoized view.
struct ViewState {
    /// Case-folded filter bytes; empty means no filter.
    filter_text: Vec<u8>,
    sort_column: Option<usize>,
    sort_dir: SortDir,
    cached_view: Option<Vec<u32>>,
}

impl ViewState {
    fn new() -> (r: ViewState)
        ensures
            r.filter_text@.len() == 0,
            r.sort_column is None,
            r.sort_dir == SortDir::Unsorted,
            r.cached_view is None,
    {
        ViewState {
            filter_text: Vec::new(),
            sort_column: Option::None,
            sort_dir: SortDir::Unsorted,
            cached_view: Option::None,
        }
    }

    fn invalidate(&mut self)
        ensures
            final(self).cached_view is None,
            final(self).filter_text == old(self).filter_text,
            final(self).sort_column == old(self).sort_column,
            final(self).sort_dir == old(self).sort_dir,
    {
        self.cached_view = Option::None;
    }
}

/// An in-memory single-table store. Rows get increasing indices that are never
/// reused; deleting a row only marks it.
pub struct GridStore {
    columns: Vec<Column>,
    id_column: usize,
    deleted: Vec<bool>,
    trigram_index: TrigramIndex,
    /// Every row, live or deleted, under the hash of its primary key.
    id_map: IdMap,
    /// The text columns whose cells make up a row's indexed text, in order.
    indexed_columns: Vec<usize>,
    view: ViewState,
}

impl GridStore {
    /// The number of rows ever inserted, deleted ones included.
    pub closed spec fn rows(&self) -> nat {
        self.deleted@.len()
    }

    pub closed spec fn num_columns(&self) -> nat {
        self.columns@.len()
    }

    pub closed spec fn column_name(&self, c: int) -> Seq<char> {
        self.columns@[c].name@
    }

    pub closed spec fn column_is_text(&self, c: int) -> bool {
        self.columns@[c].data is Strings
    }

    /// The column that holds the primary key.
    pub closed spec fn id_column(&self) -> int {
        self.id_column as int
    }

    /// The column named `name`, if any.
    pub closed spec fn column_of(&self, name: Seq<char>) -> Option<int> {
        if exists|c: int| 0 <= c < self.columns@.len() && self.columns@[c].name@ == name {
            Some(choose|c: int| 0 <= c < self.columns@.len() && self.columns@[c].name@ == name)
        } else {
            None
        }
    }

    pub closed spec fn is_deleted(&self, r: int) -> bool {
        self.deleted@[r]
    }

    /// Row `r` exists and is not deleted.
    pub closed spec fn is_live(&self, r: int) -> bool {
        0 <= r < self.deleted@.len() && !self.deleted@[r]
    }

    /// What the cell of row `r` in column `c` reads as.
    pub closed spec fn cell(&self, r: int, c: int) -> ValueView {
        self.columns@[c].data.value_at(r)@
    }

    /// The primary key of row `r`.
    pub closed spec fn id_at(&self, r: int) -> Seq<char> {
        self.columns@[self.id_column as int].data.text_at(r)
    }

    /// The row, live or deleted, whose primary key is `id`.
    pub closed spec fn row_of_id(&self, id: Seq<char>) -> Option<int> {
        if exists|r: int| 0 <= r < self.deleted@.len() && self.id_at(r) == id {
            Some(choose|r: int| 0 <= r < self.deleted@.len() && self.id_at(r) == id)
        } else {
            None
        }
    }

    /// The live row whose primary key is `id`.
    pub closed spec fn live_row_of_id(&self, id: Seq<char>) -> Option<int> {
        match self.row_of_id(id) {
            Some(r) => if self.is_live(r) {
                Some(r)
            } else {
                None
            },
            None => None,
        }
    }

    /// The case-folded filter; empty when there is none.
    pub closed spec fn filter(&self) -> Seq<u8> {
        self.view.filter_text@
    }

    /// The sort column and whether it is descending, when a sort is in force.
    pub closed spec fn sort(&self) -> Option<(int, bool)> {
        match self.view.sort_column {
            Some(c) => if self.view.sort_dir != SortDir::Unsorted {
                Some((c as int, self.view.sort_dir == SortDir::Desc))
            } else {
                None
            },
            None => None,
        }
    }

    /// The view as it was last materialized, if it still stands.
    pub closed spec fn cached(&self) -> Option<Seq<u32>> {
        match self.view.cached_view {
            Some(v) => Some(v@),
            None => None,
        }
    }

    /// The UTF-8 bytes of the text of row `r` in column `c`.
    pub closed spec fn cell_bytes(&self, r: int, c: int) -> Seq<u8> {
        encode_utf8(self.columns@[c].data.text_at(r))
    }

    /// The texts of row `r` in the indexed columns, in order.
    pub closed spec fn parts(&self, r: int) -> Seq<Seq<u8>> {
        Seq::new(
            self.indexed_columns@.len(),
            |k: int| self.cell_bytes(r, self.indexed_columns@[k] as int),
        )
    }

    /// The indexed text of row `r`: its indexed cells joined by spaces.
    pub closed spec fn indexed_text(&self, r: int) -> Seq<u8> {
        join_text(self.parts(r))
    }

    /// Row `r` passes filter `f`: `f` is empty, or the case-folded text of
    /// one of its indexed cells holds `f`.
    pub closed spec fn matches(&self, r: int, f: Seq<u8>) -> bool {
        f.len() == 0 || exists|k: int|
            0 <= k < self.indexed_columns@.len() && #[trigger] contains(
                lower(self.cell_bytes(r, self.indexed_columns@[k] as int)),
                f,
            )
    }

    /// Row `r` belongs in the view.
    pub closed spec fn in_view(&self, r: int) -> bool {
        self.is_live(r) && self.matches(r, self.view.filter_text@)
    }

    /// The order that the view follows.
    pub closed spec fn sort_key(&self) -> Option<(ColumnData, bool)> {
        match self.sort() {
            Some((c, desc)) => Some((self.columns@[c].data, desc)),
            None => None,
        }
    }

    /// `v` lists the rows that belong in the view, each once, in view order.
    pub closed spec fn is_view(&self, v: Seq<u32>) -> bool {
        &&& v.no_duplicates()
        &&& forall|x: u32| v.contains(x) <==> self.in_view(x as int)
        &&& forall|i: int, j: int|
            0 <= i < j < v.len() ==> row_before(self.sort_key(), #[trigger] v[i], #[trigger] v[j])
    }

    /// The view: the live rows that pass the filter, in sort order with ties
    /// by ascending row index.
    pub closed spec fn view(&self) -> Seq<u32> {
        choose|v: Seq<u32>| self.is_view(v)
    }

    /// The number of live rows.
    pub closed spec fn live_count(&self) -> nat {
        count_live(self.deleted@)
    }

    /// The number of indexed text columns.
    pub closed spec fn num_indexed(&self) -> nat {
        self.indexed_columns@.len()
    }

    /// The `k`-th indexed text column, in declaration order.
    pub closed spec fn indexed_column(&self, k: int) -> int {
        self.indexed_columns@[k] as int
    }

    /// Column `c` is one of the indexed text columns.
    pub closed spec fn is_indexed(&self, c: int) -> bool {
        exists|k: int| 0 <= k < self.indexed_columns@.len() && self.indexed_columns@[k] == c
    }

    /// Same columns (names, kinds, order), primary key column and indexed columns.
    pub closed spec fn same_layout(&self, other: GridStore) -> bool {
        &&& self.columns@.len() == other.columns@.len()
        &&& self.id_column == other.id_column
        &&& self.indexed_columns@ == other.indexed_columns@
        &&& forall|c: int|
            0 <= c < self.columns@.len() ==> #[trigger] self.columns@[c].name == other.columns@[c].name
                && (self.columns@[c].data is Strings) == (other.columns@[c].data is Strings)
    }

    /// Row `r` holds the same cells in `self` and in `other`.
    closed spec fn row_agrees(&self, other: GridStore, r: int) -> bool {
        forall|c: int|
            0 <= c < self.columns@.len() ==> #[trigger] self.columns@[c].data.text_at(r)
                == other.columns@[c].data.text_at(r) && self.columns@[c].data.number_at(r)
                == other.columns@[c].data.number_at(r)
    }

    /// `self` is `before` after inserting `row` returned `r`: `MissingId` when
    /// the primary key field is not text, `DuplicateId` when a row has that key,
    /// else a new live row at the next index whose cells are the record's.
    pub closed spec fn inserted(
        &self,
        before: GridStore,
        row: Seq<(String, Value)>,
        r: Result<u32, StoreError>,
    ) -> bool {
        let id_field = field_of(row, before.column_name(before.id_column()));
        match r {
            Err(e) => *self == before && match id_field {
                Some(Value::Text(s)) => e == StoreError::DuplicateId && before.row_of_id(s@) is Some,
                _ => e == StoreError::MissingId,
            },
            Ok(x) => {
                &&& id_field matches Some(Value::Text(s))
                &&& before.row_of_id(s@) is None
                &&& x == before.rows()
                &&& self.rows() == before.rows() + 1
                &&& self.same_layout(before)
                &&& !self.is_deleted(x as int)
                &&& forall|rr: int|
                    0 <= rr < before.rows() ==> self.is_deleted(rr) == before.is_deleted(rr)
                        && #[trigger] self.row_agrees(before, rr)
                &&& forall|rr: int, c: int|
                    0 <= rr < before.rows() && 0 <= c < self.num_columns() ==> #[trigger] self.cell(rr, c)
                        == before.cell(rr, c)
                &&& forall|c: int|
                    0 <= c < self.num_columns() ==> #[trigger] self.cell(x as int, c)
                        == stored_view(before.column_is_text(c), field_of(row, before.column_name(c)))
                &&& self.filter() == before.filter()
                &&& self.sort() == before.sort()
                &&& self.cached() is None
            },
        }
    }

    /// Rows that hold the same cells read the same.
    #[verifier::spinoff_prover]
    proof fn lemma_row_agrees(&self, other: GridStore, r: int)
        requires
            self.shape(),
            other.shape(),
            self.same_layout(other),
            0 <= r < self.rows(),
            0 <= r < other.rows(),
            self.row_agrees(other, r),
        ensures
            self.indexed_text(r) == other.indexed_text(r),
            self.id_at(r) == other.id_at(r),
            forall|c: int| 0 <= c < self.columns@.len() ==> #[trigger] self.cell(r, c) == other.cell(r, c),
            forall|f: Seq<u8>| #[trigger] self.matches(r, f) == other.matches(r, f),
    {
        assert forall|k: int| 0 <= k < self.indexed_columns@.len() implies #[trigger] self.cell_bytes(r, self.indexed_columns@[k] as int) == other.cell_bytes(r, other.indexed_columns@[k] as int) by {
            let c = self.indexed_columns@[k] as int;
            assert(self.columns@[c].data.text_at(r) == other.columns@[c].data.text_at(r));
        }
        assert(self.parts(r) =~= other.parts(r));
        assert(self.columns@[self.id_column as int].data.text_at(r) == other.columns@[other.id_column as int].data.text_at(r));
        assert forall|c: int| 0 <= c < self.columns@.len() implies #[trigger] self.cell(r, c) == other.cell(r, c) by {
            assert(self.columns@[c].name == other.columns@[c].name);
            assert(self.columns@[c].data.text_at(r) == other.columns@[c].data.text_at(r));
            assert(self.columns@[c].data.spec_len() == self.deleted@.len());
            assert(other.columns@[c].data.spec_len() == other.deleted@.len());
        }
        assert forall|f: Seq<u8>| #[trigger] self.matches(r, f) == other.matches(r, f) by {
            if self.matches(r, f) && f.len() > 0 {
                let k = choose|k: int| 0 <= k < self.indexed_columns@.len() && #[trigger] contains(lower(self.cell_bytes(r, self.indexed_columns@[k] as int)), f);
                assert(contains(lower(other.cell_bytes(r, other.indexed_columns@[k] as int)), f));
            }
            if other.matches(r, f) && f.len() > 0 {
                let k = choose|k: int| 0 <= k < other.indexed_columns@.len() && #[trigger] contains(lower(other.cell_bytes(r, other.indexed_columns@[k] as int)), f);
                assert(contains(lower(self.cell_bytes(r, self.indexed_columns@[k] as int)), f));
            }
        }
    }

    /// Row `r` stands in the posting list of trigram `t`.
    pub closed spec fn posting_holds(&self, t: u32, r: int) -> bool {
        self.trigram_index.posting(t).contains(r as u32)
    }

    /// Everything but the cached view is the same.
    pub closed spec fn same_content(&self, other: GridStore) -> bool {
        &&& self.columns == other.columns
        &&& self.id_column == other.id_column
        &&& self.deleted == other.deleted
        &&& self.trigram_index == other.trigram_index
        &&& self.id_map == other.id_map
        &&& self.indexed_columns == other.indexed_columns
        &&& self.view.filter_text == other.view.filter_text
        &&& self.view.sort_column == other.view.sort_column
        &&& self.view.sort_dir == other.view.sort_dir
    }

    /// A live row that passes a filter of three bytes or more is in every
    /// posting list of the filter's trigrams.
    proof fn lemma_match_in_postings(&self, x: u32, t: u32)
        requires
            self.wf(),
            self.is_live(x as int),
            self.view.filter_text@.len() >= 3,
            self.matches(x as int, self.view.filter_text@),
            trigrams(lower(self.view.filter_text@)).contains(t),
        ensures
            self.trigram_index.posting(t).contains(x),
    {
        let f = self.view.filter_text@;
        let k = choose|k: int|
            0 <= k < self.indexed_columns@.len() && #[trigger] contains(
                lower(self.cell_bytes(x as int, self.indexed_columns@[k] as int)),
                f,
            );
        let part = self.cell_bytes(x as int, self.indexed_columns@[k] as int);
        let p = choose|p: int| occurs_at(lower(part), f, p);
        lemma_join_contains_part(self.parts(x as int), k);
        let q = choose|q: int| occurs_at(self.indexed_text(x as int), self.parts(x as int)[k], q);
        lemma_lower_occurs(self.indexed_text(x as int), part, q, f, p);
        assert(has_trigram(f, t));
        lemma_trigrams_of_occurrence(lower(self.indexed_text(x as int)), f, q + p, t);
        assert(trigrams(lower(self.indexed_text(x as int))).contains(t));
    }

    /// `self` is `before` with `changes` written to row `r`: each column but the
    /// primary key that `changes` names takes the field's value; the view is dropped.
    pub closed spec fn updated(&self, before: GridStore, r: int, changes: Seq<(String, Value)>) -> bool {
        &&& self.same_layout(before)
        &&& self.deleted == before.deleted
        &&& self.view.filter_text == before.view.filter_text
        &&& self.view.sort_column == before.view.sort_column
        &&& self.view.sort_dir == before.view.sort_dir
        &&& self.cached() is None
        &&& forall|rr: int| #[trigger] self.id_at(rr) == before.id_at(rr)
        &&& forall|rr: int, c: int|
            0 <= c < self.num_columns() ==> #[trigger] self.cell(rr, c) == if rr == r && c
                != before.id_column() && field_of(changes, before.column_name(c)) is Some {
                stored_view(before.column_is_text(c), field_of(changes, before.column_name(c)))
            } else {
                before.cell(rr, c)
            }
    }

    /// `self` is `before` with row `r` marked deleted; the view is dropped.
    pub closed spec fn deleted_row(&self, before: GridStore, r: int) -> bool {
        &&& self.same_layout(before)
        &&& self.columns == before.columns
        &&& before.is_live(r)
        &&& self.deleted@ == before.deleted@.update(r, true)
        &&& self.view.filter_text == before.view.filter_text
        &&& self.view.sort_column == before.view.sort_column
        &&& self.view.sort_dir == before.view.sort_dir
        &&& self.cached() is None
    }

    /// The live row that a batch entry addresses through its primary key field.
    pub closed spec fn batch_target(&self, u: Seq<(String, Value)>) -> Option<int> {
        match field_of(u, self.column_name(self.id_column())) {
            Some(Value::Text(s)) => self.live_row_of_id(s@),
            _ => None,
        }
    }

    /// How many entries of `updates` address a live row.
    pub closed spec fn batch_count(&self, updates: Seq<Vec<(String, Value)>>) -> nat
        decreases updates.len(),
    {
        if updates.len() == 0 {
            0
        } else {
            self.batch_count(updates.drop_last()) + if self.batch_target(updates.last()@) is Some {
                1nat
            } else {
                0nat
            }
        }
    }

    /// What cell (`rr`, `c`) reads once `updates` are applied in order.
    pub closed spec fn batch_cell(&self, updates: Seq<Vec<(String, Value)>>, rr: int, c: int) -> ValueView
        decreases updates.len(),
    {
        if updates.len() == 0 {
            self.cell(rr, c)
        } else {
            let u = updates.last()@;
            if self.batch_target(u) == Some(rr) && c != self.id_column() && field_of(
                u,
                self.column_name(c),
            ) is Some {
                stored_view(self.column_is_text(c), field_of(u, self.column_name(c)))
            } else {
                self.batch_cell(updates.drop_last(), rr, c)
            }
        }
    }

    /// Stores with the same rows and keys find the same row for a key.
    proof fn lemma_same_ids(&self, other: GridStore, id: Seq<char>)
        requires
            self.wf(),
            other.wf(),
            self.deleted@.len() == other.deleted@.len(),
            forall|rr: int| 0 <= rr < self.rows() ==> #[trigger] self.id_at(rr) == other.id_at(rr),
        ensures
            self.row_of_id(id) == other.row_of_id(id),
            self.deleted == other.deleted ==> self.live_row_of_id(id) == other.live_row_of_id(id),
    {
        if exists|r: int| 0 <= r < self.deleted@.len() && self.id_at(r) == id {
            let x = choose|r: int| 0 <= r < self.deleted@.len() && self.id_at(r) == id;
            assert(other.id_at(x) == id);
            let y = choose|r: int| 0 <= r < other.deleted@.len() && other.id_at(r) == id;
            assert(self.id_at(y) == id);
            if x < y {
                assert(self.id_at(x) != self.id_at(y));
            } else if y < x {
                assert(self.id_at(y) != self.id_at(x));
            }
        } else {
            if exists|r: int| 0 <= r < other.deleted@.len() && other.id_at(r) == id {
                let y = choose|r: int| 0 <= r < other.deleted@.len() && other.id_at(r) == id;
                assert(self.id_at(y) == id);
            }
        }
    }

    /// `self` is `before` with the first `m` records of `rows` appended as new
    /// live rows, in order; earlier rows are untouched.
    pub closed spec fn loaded_prefix(&self, before: GridStore, rows: Seq<Vec<(String, Value)>>, m: int) -> bool {
        &&& 0 <= m <= rows.len()
        &&& self.same_layout(before)
        &&& self.rows() == before.rows() + m
        &&& forall|rr: int| 0 <= rr < before.rows() ==> #[trigger] self.is_deleted(rr) == before.is_deleted(rr)
        &&& forall|rr: int, c: int|
            0 <= rr < before.rows() && 0 <= c < self.num_columns() ==> #[trigger] self.cell(rr, c)
                == before.cell(rr, c)
        &&& forall|k: int| 0 <= k < m ==> !#[trigger] self.is_deleted(before.rows() + k)
        &&& forall|k: int, c: int|
            0 <= k < m && 0 <= c < self.num_columns() ==> #[trigger] self.cell(before.rows() + k, c)
                == stored_view(before.column_is_text(c), field_of(rows[k]@, before.column_name(c)))
        &&& self.filter() == before.filter()
        &&& self.sort() == before.sort()
    }

    /// Same columns, cells, deleted rows, trigram index and key buckets.
    pub closed spec fn same_data(&self, other: GridStore) -> bool {
        &&& self.columns == other.columns
        &&& self.id_column == other.id_column
        &&& self.deleted == other.deleted
        &&& self.trigram_index == other.trigram_index
        &&& self.id_map == other.id_map
        &&& self.indexed_columns == other.indexed_columns
    }

    /// The stored sort setting: column (if known) and direction.
    pub closed spec fn sort_setting(&self) -> (Option<usize>, SortDir) {
        (self.view.sort_column, self.view.sort_dir)
    }

    /// `rec` is the record of row `r`: each column's name with the cell's value.
    pub closed spec fn is_record(&self, rec: Seq<(String, Value)>, r: int) -> bool {
        &&& rec.len() == self.columns@.len()
        &&& forall|c: int|
            0 <= c < rec.len() ==> (#[trigger] rec[c]).0@ == self.column_name(c) && rec[c].1@
                == self.cell(r, c)
    }

    /// Changing the query and dropping the view keeps the invariant.
    proof fn lemma_wf_query_change(&self, pre: GridStore)
        requires
            pre.wf(),
            self.same_data(pre),
            self.view.sort_column matches Some(c) ==> c < self.columns@.len(),
            lower(self.view.filter_text@) == self.view.filter_text@,
            self.view.cached_view is None || self.view == pre.view,
        ensures
            self.wf(),
    {
        self.lemma_ids_kept(pre);
        assert forall|i: int, j: int| 0 <= i < j < self.deleted@.len() implies #[trigger] self.id_at(i) != #[trigger] self.id_at(j) by {
            assert(pre.id_at(i) != pre.id_at(j));
        }
        assert forall|t: u32, x: u32| #[trigger]
            self.trigram_index.posting(t).contains(x) <==> (self.is_live(x as int) && trigrams(
                lower(self.indexed_text(x as int)),
            ).contains(t)) by {
            assert(self.parts(x as int) =~= pre.parts(x as int));
            assert(pre.trigram_index.posting(t).contains(x) <==> (pre.is_live(x as int) && trigrams(
                lower(pre.indexed_text(x as int)),
            ).contains(t)));
        }
        assert(self.shape());
        if self.view == pre.view {
            if let Some(v) = self.view.cached_view {
                assert(self.same_content(pre));
                self.lemma_is_view_same(pre, v@);
            }
        }
    }

    /// Stores with the same data and query agree on which sequences are the view.
    proof fn lemma_is_view_same(&self, other: GridStore, v: Seq<u32>)
        requires
            self.shape(),
            other.shape(),
            self.same_content(other),
        ensures
            self.is_view(v) == other.is_view(v),
    {
        assert(self.sort_key() == other.sort_key());
        assert forall|x: u32| self.in_view(x as int) == other.in_view(x as int) by {
            if (x as int) < self.rows() {
                assert(self.same_layout(other));
                assert(self.row_agrees(other, x as int));
                self.lemma_row_agrees(other, x as int);
            }
        }
    }

    /// A sequence that is a view is the view.
    pub proof fn lemma_view_is(&self, v: Seq<u32>)
        requires
            self.is_view(v),
        ensures
            self.view() == v,
    {
        let w = self.view();
        assert(self.is_view(w));
        lemma_sorted_unique(self.sort_key(), v, w);
    }

    /// Each row stands in the bucket of its primary key's hash, and buckets
    /// hold rows only.
    closed spec fn ids_indexed(&self) -> bool {
        &&& forall|r: int|
            0 <= r < self.deleted@.len() ==> self.id_map.bucket(
                id_hash(encode_utf8(#[trigger] self.id_at(r))),
            ).contains(r as u32)
        &&& forall|h: u64, k: int|
            0 <= k < self.id_map.bucket(h).len() ==> #[trigger] self.id_map.bucket(h)[k]
                < self.deleted@.len()
    }

    /// Keeping the rows, their keys and the buckets keeps the buckets right.
    proof fn lemma_ids_kept(&self, pre: GridStore)
        requires
            pre.ids_indexed(),
            self.id_map == pre.id_map,
            self.deleted@.len() == pre.deleted@.len(),
            forall|r: int| 0 <= r < self.deleted@.len() ==> #[trigger] self.id_at(r) == pre.id_at(r),
        ensures
            self.ids_indexed(),
    {
        assert forall|r: int| 0 <= r < self.deleted@.len() implies self.id_map.bucket(
                id_hash(encode_utf8(#[trigger] self.id_at(r))),
            ).contains(r as u32) by {
            assert(pre.id_at(r) == self.id_at(r));
        }
    }

    /// The layout that every operation relies on.
    closed spec fn shape(&self) -> bool {
        &&& self.columns@.len() > 0
        &&& self.id_column < self.columns@.len()
        &&& self.columns@[self.id_column as int].data is Strings
        &&& self.deleted@.len() <= u32::MAX
        &&& forall|c: int|
            0 <= c < self.columns@.len() ==> #[trigger] self.columns@[c].data.spec_len()
                == self.deleted@.len()
        &&& forall|k: int|
            0 <= k < self.indexed_columns@.len() ==> {
                &&& #[trigger] self.indexed_columns@[k] < self.columns@.len()
                &&& self.columns@[self.indexed_columns@[k] as int].data is Strings
            }
        &&& forall|i: int, j: int|
            0 <= i < j < self.columns@.len() ==> #[trigger] self.columns@[i].name@
                != #[trigger] self.columns@[j].name@
        &&& self.view.sort_column matches Some(c) ==> c < self.columns@.len()
        &&& lower(self.view.filter_text@) == self.view.filter_text@
    }

    /// The store's invariant: its layout, primary keys that differ across all
    /// rows, posting lists that hold exactly the live rows with each trigram
    /// of their indexed text, and a cached view that is the view.
    pub closed spec fn wf(&self) -> bool {
        &&& self.shape()
        &&& forall|i: int, j: int|
            0 <= i < j < self.deleted@.len() ==> #[trigger] self.id_at(i) != #[trigger] self.id_at(j)
        &&& self.ids_indexed()
        &&& forall|t: u32, x: u32| #[trigger]
            self.trigram_index.posting(t).contains(x) <==> (self.is_live(x as int) && trigrams(
                lower(self.indexed_text(x as int)),
            ).contains(t))
        &&& self.view.cached_view matches Some(v) ==> self.is_view(v@)
    }
}

impl GridStore {
    /// Builds an empty store for `schema`. A type other than "string",
    /// "number" or "integer" gives `TypeError`; otherwise an invalid schema
    /// gives `SchemaError`. Indexed number columns are not indexed.
    #[verifier::spinoff_prover]
    pub fn new(schema: &Vec<ColumnDef>) -> (r: Result<GridStore, StoreError>)
        ensures
            r matches Err(StoreError::TypeError) <==> exists|c: int|
                0 <= c < schema@.len() && !known_kind(#[trigger] schema@[c].kind@),
            r matches Err(StoreError::SchemaError) <==> (forall|c: int|
                0 <= c < schema@.len() ==> known_kind(#[trigger] schema@[c].kind@)) && !valid_schema(
                schema@,
            ),
            r is Err ==> r matches Err(StoreError::TypeError) || r matches Err(
                StoreError::SchemaError,
            ),
            r matches Ok(s) ==> {
                &&& s.wf()
                &&& s.rows() == 0
                &&& s.num_columns() == schema@.len()
                &&& forall|c: int|
                    0 <= c < schema@.len() ==> {
                        &&& s.column_name(c) == schema@[c].name@
                        &&& s.column_is_text(c) == is_text_kind(schema@[c].kind@)
                        &&& s.is_indexed(c) == (schema@[c].indexed && is_text_kind(
                            schema@[c].kind@,
                        ))
                    }
                &&& schema@[s.id_column()].primary_key
                &&& s.filter().len() == 0
                &&& s.sort() is None
                &&& s.cached() is None
            },
    {
        let mut kinds: Vec<bool> = Vec::new();
        let mut i: usize = 0;
        while i < schema.len()
            invariant
                i <= schema@.len(),
                kinds@.len() == i,
                forall|k: int|
                    0 <= k < i ==> known_kind(#[trigger] schema@[k].kind@) && kinds@[k]
                        == is_text_kind(schema@[k].kind@),
            decreases schema@.len() - i,
        {
            match parse_kind(&schema[i].kind) {
                Option::None => {
                    return Err(StoreError::TypeError);
                },
                Option::Some(t) => {
                    kinds.push(t);
                },
            }
            i += 1;
        }
        if schema.len() == 0 {
            return Err(StoreError::SchemaError);
        }
        let mut i: usize = 0;
        while i < schema.len()
            invariant
                i <= schema@.len(),
                kinds@.len() == schema@.len(),
                forall|k: int|
                    0 <= k < schema@.len() ==> known_kind(#[trigger] schema@[k].kind@) && kinds@[k]
                        == is_text_kind(schema@[k].kind@),
                forall|a: int, b: int| 0 <= a < i && a < b < schema@.len() ==> schema@[a].name@ != schema@[b].name@,
            decreases schema@.len() - i,
        {
            let mut j: usize = i + 1;
            while j < schema.len()
                invariant
                    i < schema@.len(),
                    kinds@.len() == schema@.len(),
                    forall|k: int|
                        0 <= k < schema@.len() ==> known_kind(#[trigger] schema@[k].kind@) && kinds@[k]
                            == is_text_kind(schema@[k].kind@),

                    i + 1 <= j <= schema@.len(),
                    forall|a: int, b: int| 0 <= a < i && a < b < schema@.len() ==> schema@[a].name@ != schema@[b].name@,
                    forall|b: int| i < b < j ==> schema@[i as int].name@ != schema@[b].name@,
                decreases schema@.len() - j,
            {
                if schema[i].name == schema[j].name {
                    return Err(StoreError::SchemaError);
                }
                j += 1;
            }
            i += 1;
        }
        let mut pk: Option<usize> = Option::None;
        let mut i: usize = 0;
        while i < schema.len()
            invariant
                i <= schema@.len(),
                kinds@.len() == schema@.len(),
                forall|k: int|
                    0 <= k < schema@.len() ==> known_kind(#[trigger] schema@[k].kind@) && kinds@[k]
                        == is_text_kind(schema@[k].kind@),
                forall|a: int, b: int| 0 <= a < b < schema@.len() ==> schema@[a].name@ != schema@[b].name@,
                pk is None ==> forall|q: int| 0 <= q < i ==> !schema@[q].primary_key,
                pk matches Some(p) ==> p < i && schema@[p as int].primary_key && forall|q: int|
                    0 <= q < i && q != p ==> !schema@[q].primary_key,
            decreases schema@.len() - i,
        {
            if schema[i].primary_key {
                if pk.is_some() {
                    return Err(StoreError::SchemaError);
                }
                pk = Option::Some(i);
            }
            i += 1;
        }
        let id_column: usize = match pk {
            Option::None => {
                return Err(StoreError::SchemaError);
            },
            Option::Some(p) => p,
        };
        if !kinds[id_column] {
            return Err(StoreError::SchemaError);
        }
        assert(valid_schema(schema@));
        let mut columns: Vec<Column> = Vec::new();
        let mut indexed_columns: Vec<usize> = Vec::new();
        let mut i: usize = 0;
        while i < schema.len()
            invariant
                i <= schema@.len(),
                kinds@.len() == schema@.len(),
                forall|k: int|
                    0 <= k < schema@.len() ==> known_kind(#[trigger] schema@[k].kind@) && kinds@[k]
                        == is_text_kind(schema@[k].kind@),
                valid_schema(schema@),
                id_column < schema@.len(),
                schema@[id_column as int].primary_key,
                kinds@[id_column as int],
                columns@.len() == i,
                forall|c: int| 0 <= c < i ==> #[trigger] columns@[c].name@ == schema@[c].name@,
                forall|c: int| 0 <= c < i ==> (#[trigger] columns@[c].data).spec_len() == 0,
                forall|c: int| 0 <= c < i ==> ((#[trigger] columns@[c].data) is Strings) == kinds@[c],
                forall|k: int|
                    0 <= k < indexed_columns@.len() ==> #[trigger] indexed_columns@[k] < i
                        && kinds@[indexed_columns@[k] as int],
                forall|c: int|
                    0 <= c < i ==> ((exists|k: int|
                        0 <= k < indexed_columns@.len() && indexed_columns@[k] == c) == (
                    schema@[c].indexed && kinds@[c])),
            decreases schema@.len() - i,
        {
            let data = if kinds[i] {
                ColumnData::Strings(Vec::new())
            } else {
                ColumnData::Numbers(Vec::new())
            };
            let name = schema[i].name.clone();
            let ghost cols_before = columns@;
            columns.push(Column { name, data });
            assert(columns@[i as int].name@ == schema@[i as int].name@);
            assert forall|c: int| 0 <= c < i + 1 implies #[trigger] columns@[c].name@ == schema@[c].name@
                && columns@[c].data.spec_len() == 0 && (columns@[c].data is Strings) == kinds@[c] by {
                if c < i {
                    assert(columns@[c] == cols_before[c]);
                    assert(cols_before[c].name@ == schema@[c].name@);
                }
            }
            if schema[i].indexed && kinds[i] {
                let ghost before = indexed_columns@;
                indexed_columns.push(i);
                assert forall|c: int|
                    0 <= c < i + 1 implies ((exists|k: int|
                        0 <= k < indexed_columns@.len() && indexed_columns@[k] == c) == (
                    schema@[c].indexed && kinds@[c])) by {
                    if c < i {
                        if exists|k: int| 0 <= k < indexed_columns@.len() && indexed_columns@[k] == c {
                            let k = choose|k: int| 0 <= k < indexed_columns@.len() && indexed_columns@[k] == c;
                            assert(before[k] == c);
                        }
                        if exists|k: int| 0 <= k < before.len() && before[k] == c {
                            let k = choose|k: int| 0 <= k < before.len() && before[k] == c;
                            assert(indexed_columns@[k] == c);
                        }
                    } else {
                        assert(indexed_columns@[before.len() as int] == c);
                    }
                }
            } else {
                assert forall|c: int|
                    0 <= c < i + 1 implies ((exists|k: int|
                        0 <= k < indexed_columns@.len() && indexed_columns@[k] == c) == (
                    schema@[c].indexed && kinds@[c])) by {
                    if c == i {
                        assert(!exists|k: int| 0 <= k < indexed_columns@.len() && indexed_columns@[k] == c);
                    }
                }
            }
            i += 1;
        }
        let ghost indexed_columns_ghost = indexed_columns@;
        let store = GridStore {
            columns,
            id_column,
            deleted: Vec::new(),
            trigram_index: TrigramIndex::new(),
            id_map: IdMap::new(),
            indexed_columns,
            view: ViewState::new(),
        };
        assert(lower(store.view.filter_text@) =~= store.view.filter_text@);
        assert forall|c: int| 0 <= c < store.columns@.len() implies #[trigger] store.columns@[c].data.spec_len() == 0 && (store.columns@[c].data is Strings) == kinds@[c] by {
            assert(store.columns@[c].name@ == schema@[c].name@);
        }
        assert forall|i: int, j: int|
            0 <= i < j < store.columns@.len() implies #[trigger] store.columns@[i].name@
                != #[trigger] store.columns@[j].name@ by {
            assert(store.columns@[i].name@ == schema@[i].name@);
            assert(store.columns@[j].name@ == schema@[j].name@);
        }
        assert forall|k: int| 0 <= k < store.indexed_columns@.len() implies {
                &&& #[trigger] store.indexed_columns@[k] < store.columns@.len()
                &&& store.columns@[store.indexed_columns@[k] as int].data is Strings
            } by {
            let c = store.indexed_columns@[k] as int;
            assert(store.columns@[c].data.spec_len() == 0);
        }
        assert(store.columns@[id_column as int].data.spec_len() == 0);
        assert(store.columns@[id_column as int].data is Strings);
        assert(store.columns@.len() > 0);
        assert(store.deleted@.len() == 0);
        assert(store.shape());
        assert forall|t: u32, x: u32| #[trigger]
            store.trigram_index.posting(t).contains(x) <==> (store.is_live(x as int) && trigrams(
                lower(store.indexed_text(x as int)),
            ).contains(t)) by {
            assert(store.trigram_index.posting(t) == Set::<u32>::empty());
        }
        assert(store.wf());
        assert forall|c: int| 0 <= c < schema@.len() implies store.is_indexed(c) == (schema@[c].indexed && is_text_kind(schema@[c].kind@)) by {
            assert(store.indexed_columns@ == indexed_columns_ghost);
        }
        Ok(store)
    }
}

/// The value that a record gives a column: its field, or `Null` where it has none.
pub open spec fn field_or_null(row: Seq<(String, Value)>, name: Seq<char>) -> Value {
    match field_of(row, name) {
        Some(v) => v,
        None => Value::Null,
    }
}

impl GridStore {
    /// The row whose primary key is `id`, live or deleted.
    fn find_row(&self, id: &str) -> (r: Option<usize>)
        requires
            self.wf(),
        ensures
            r is None <==> self.row_of_id(id@) is None,
            r matches Some(x) ==> self.row_of_id(id@) == Some(x as int) && x < self.rows(),
    {
        let ids = match &self.columns[self.id_column].data {
            ColumnData::Strings(v) => v,
            ColumnData::Numbers(_) => {
                return Option::None;
            },
        };
        assert(self.columns@[self.id_column as int].data.spec_len() == self.deleted@.len());
        let h = hash_bytes(id.as_bytes());
        let bucket = self.id_map.get(h);
        let mut k: usize = 0;
        while k < bucket.len()
            invariant
                self.wf(),
                ids@.len() == self.deleted@.len(),
                self.columns@[self.id_column as int].data == ColumnData::Strings(*ids),
                h == id_hash(encode_utf8(id@)),
                bucket@ == self.id_map.bucket(h),
                k <= bucket@.len(),
                forall|j: int| 0 <= j < k ==> self.id_at(bucket@[j] as int) != id@,
            decreases bucket@.len() - k,
        {
            let x = bucket[k];
            assert(self.id_map.bucket(h)[k as int] < self.deleted@.len());
            if same_text(ids[x as usize].as_str(), id) {
                let r = x as usize;
                assert(self.id_at(r as int) == id@);
                let ghost w = choose|x: int| 0 <= x < self.deleted@.len() && self.id_at(x) == id@;
                assert(w == r) by {
                    if w < r {
                        assert(self.id_at(w) != self.id_at(r as int));
                    } else if w > r {
                        assert(self.id_at(r as int) != self.id_at(w));
                    }
                }
                return Option::Some(r);
            }
            k += 1;
        }
        proof {
            if exists|x: int| 0 <= x < self.deleted@.len() && self.id_at(x) == id@ {
                let x = choose|x: int| 0 <= x < self.deleted@.len() && self.id_at(x) == id@;
                assert(self.id_map.bucket(id_hash(encode_utf8(self.id_at(x)))).contains(x as u32));
                let j = choose|j: int| 0 <= j < bucket@.len() && bucket@[j] == x as u32;
                assert(self.id_at(bucket@[j] as int) != id@);
            }
        }
        Option::None
    }

    /// The indexed text of row `r`, as bytes.
    fn indexed_text_of(&self, r: usize) -> (t: Vec<u8>)
        requires
            self.shape(),
            r < self.rows(),
        ensures
            t@ == self.indexed_text(r as int),
    {
        let mut text: Vec<u8> = Vec::new();
        let mut k: usize = 0;
        assert(self.parts(r as int).subrange(0, 0) =~= Seq::<Seq<u8>>::empty());
        while k < self.indexed_columns.len()
            invariant
                self.shape(),
                r < self.rows(),
                k <= self.indexed_columns@.len(),
                text@ == join_text(self.parts(r as int).subrange(0, k as int)),
            decreases self.indexed_columns@.len() - k,
        {
            let c = self.indexed_columns[k];
            let s = self.columns[c].data.get_string(r);
            assert(self.columns@[c as int].data.spec_len() == self.deleted@.len());
            let bytes = s.unwrap().as_str().as_bytes();
            let ghost sub = self.parts(r as int).subrange(0, k + 1);
            assert(sub.drop_last() =~= self.parts(r as int).subrange(0, k as int));
            assert(bytes@ == sub.last());
            let ghost before = text@;
            if k > 0 {
                text.push(32u8);
            }
            text.extend_from_slice(bytes);
            assert(text@ =~= join_text(sub));
            k += 1;
        }
        assert(self.parts(r as int).subrange(0, k as int) =~= self.parts(r as int));
        text
    }

    /// Appends `row` as a new row: the primary key must be a text field that
    /// no row, live or deleted, has yet.
    #[verifier::spinoff_prover]
    fn insert_row_internal(&mut self, row: &Vec<(String, Value)>) -> (r: Result<u32, StoreError>)
        requires
            old(self).wf(),
            old(self).rows() < u32::MAX,
        ensures
            final(self).wf(),
            final(self).inserted(*old(self), row@, r),
    {
        let ghost id_name = self.columns@[self.id_column as int].name@;
        let id: &String = match find_field(row, &self.columns[self.id_column].name) {
            Option::Some(Value::Text(s)) => s,
            _ => {
                return Err(StoreError::MissingId);
            },
        };
        if self.find_row(id.as_str()).is_some() {
            return Err(StoreError::DuplicateId);
        }
        let n = self.deleted.len();
        self.deleted.push(false);
        let mut c: usize = 0;
        while c < self.columns.len()
            invariant
                old(self).wf(),
                n == old(self).deleted@.len(),
                self.deleted@ == old(self).deleted@.push(false),
                self.id_column == old(self).id_column,
                self.indexed_columns == old(self).indexed_columns,
                self.trigram_index == old(self).trigram_index,
                self.id_map == old(self).id_map,
                self.view == old(self).view,
                self.columns@.len() == old(self).columns@.len(),
                c <= self.columns@.len(),
                forall|j: int|
                    0 <= j < self.columns@.len() ==> #[trigger] self.columns@[j].name
                        == old(self).columns@[j].name,
                forall|j: int|
                    0 <= j < c ==> #[trigger] self.columns@[j].data.push_of(
                        old(self).columns@[j].data,
                        field_or_null(row@, old(self).columns@[j].name@),
                    ),
                forall|j: int|
                    c <= j < self.columns@.len() ==> #[trigger] self.columns@[j].data
                        == old(self).columns@[j].data,
            decreases self.columns@.len() - c,
        {
            match find_field(row, &self.columns[c].name) {
                Option::Some(v) => self.columns[c].data.push_value(v),
                Option::None => self.columns[c].data.push_null(),
            }
            c += 1;
        }
        proof {
            let ghost pre = *old(self);
            assert forall|j: int| 0 <= j < self.columns@.len() implies #[trigger] self.columns@[j].data.spec_len() == n + 1
                && (self.columns@[j].data is Strings) == (pre.columns@[j].data is Strings) by {
                assert(self.columns@[j].data.push_of(pre.columns@[j].data, field_or_null(row@, pre.columns@[j].name@)));
                assert(pre.columns@[j].data.spec_len() == n);
            }
            assert forall|j: int| 0 <= j < self.columns@.len() implies #[trigger] self.columns@[j].name == pre.columns@[j].name
                && (self.columns@[j].data is Strings) == (pre.columns@[j].data is Strings) by {
                assert(self.columns@[j].data.spec_len() == n + 1);
            }
            assert(self.columns@.len() == pre.columns@.len());
            assert(self.id_column == pre.id_column);
            assert(self.indexed_columns@ == pre.indexed_columns@);
            assert(self.same_layout(pre));
            assert forall|rr: int| 0 <= rr < n implies #[trigger] self.row_agrees(pre, rr) by {
                assert forall|j: int| 0 <= j < self.columns@.len() implies #[trigger] self.columns@[j].data.text_at(rr)
                    == pre.columns@[j].data.text_at(rr) && self.columns@[j].data.number_at(rr)
                    == pre.columns@[j].data.number_at(rr) by {
                    let d = self.columns@[j].data;
                    let od = pre.columns@[j].data;
                    assert(d.push_of(od, field_or_null(row@, pre.columns@[j].name@)));
                    assert(od.spec_len() == n);
                    match (od, d) {
                        (ColumnData::Strings(a), ColumnData::Strings(b)) => {
                            assert(b@.subrange(0, a@.len() as int)[rr] == b@[rr]);
                            assert(a@[rr] == b@[rr]);
                        },
                        (ColumnData::Numbers(a), ColumnData::Numbers(b)) => {
                            assert(b@[rr] == a@[rr]);
                        },
                        _ => {},
                    }
                }
            }
            let idc0 = self.id_column as int;
            assert(self.columns@[idc0].name == pre.columns@[idc0].name);
            assert forall|k: int| 0 <= k < self.indexed_columns@.len() implies self.columns@[self.indexed_columns@[k] as int].data is Strings by {
                let c = self.indexed_columns@[k] as int;
                assert(self.columns@[c].name == pre.columns@[c].name);
            }
            assert(self.shape());
            assert forall|rr: int| 0 <= rr < n implies self.id_at(rr) == pre.id_at(rr) && self.indexed_text(rr) == pre.indexed_text(rr) by {
                self.lemma_row_agrees(pre, rr);
            }
            let idc = self.id_column as int;
            assert(field_or_null(row@, pre.columns@[idc].name@) == Value::Text(*id));
            assert(self.columns@[idc].data.push_of(pre.columns@[idc].data, Value::Text(*id)));
            assert(self.columns@[idc].data.spec_len() == n + 1);
            assert(self.id_at(n as int) == id@);
            assert(pre.row_of_id(id@) is None);
            assert forall|i: int, j: int| 0 <= i < j < self.deleted@.len() implies #[trigger] self.id_at(i) != #[trigger] self.id_at(j) by {
                if j == n {
                    assert(pre.id_at(i) != id@);
                } else {
                    assert(pre.id_at(i) != pre.id_at(j));
                }
            }
            lemma_null_number_is_nan();
            assert forall|j: int| 0 <= j < self.columns@.len() implies #[trigger] self.cell(n as int, j)
                == stored_view(pre.column_is_text(j), field_of(row@, pre.column_name(j))) by {
                let d = self.columns@[j].data;
                let od = pre.columns@[j].data;
                let v = field_or_null(row@, pre.columns@[j].name@);
                assert(d.push_of(od, v));
                assert(self.columns@[j].name == pre.columns@[j].name);
                assert(d.spec_len() == n + 1);
                match (od, d) {
                    (ColumnData::Strings(a), ColumnData::Strings(b)) => {
                        assert(b@[n as int] == b@.last());
                    },
                    (ColumnData::Numbers(a), ColumnData::Numbers(b)) => {
                        assert(b@[n as int] == number_of_value(v));
                    },
                    _ => {},
                }
            }
        }
        let ghost s1 = *self;
        let h = hash_bytes(id.as_str().as_bytes());
        self.id_map.add(h, n as u32);
        proof {
            let pre = *old(self);
            assert(self.columns == s1.columns);
            assert forall|r: int| 0 <= r < self.deleted@.len() implies self.id_map.bucket(
                    id_hash(encode_utf8(#[trigger] self.id_at(r))),
                ).contains(r as u32) by {
                if r < n {
                    assert(s1.id_at(r) == pre.id_at(r));
                    let hh = id_hash(encode_utf8(pre.id_at(r)));
                    assert(pre.id_map.bucket(hh).contains(r as u32));
                    let k = choose|k: int| 0 <= k < pre.id_map.bucket(hh).len() && pre.id_map.bucket(hh)[k] == r as u32;
                    assert(self.id_map.bucket(hh)[k] == r as u32);
                } else {
                    assert(s1.id_at(r) == id@);
                    assert(self.id_map.bucket(h)[pre.id_map.bucket(h).len() as int] == r as u32);
                }
            }
            assert forall|hh: u64, k: int|
                0 <= k < self.id_map.bucket(hh).len() implies #[trigger] self.id_map.bucket(hh)[k]
                    < self.deleted@.len() by {
                if hh == h && k == pre.id_map.bucket(h).len() {
                } else {
                    assert(pre.id_map.bucket(hh)[k] < pre.deleted@.len());
                }
            }
            assert(self.ids_indexed());
        }
        let text = self.indexed_text_of(n);
        let ghost mid = *self;
        self.trigram_index.add(n as u32, text.as_slice());
        self.view.invalidate();
        proof {
            let ghost pre = *old(self);
            assert forall|t: u32, x: u32| #[trigger]
                self.trigram_index.posting(t).contains(x) <==> (self.is_live(x as int) && trigrams(
                    lower(self.indexed_text(x as int)),
                ).contains(t)) by {
                if x != n as u32 {
                    assert(pre.trigram_index.posting(t).contains(x) <==> (pre.is_live(x as int) && trigrams(
                        lower(pre.indexed_text(x as int)),
                    ).contains(t)));
                    if (x as int) < n {
                        assert(self.parts(x as int) =~= s1.parts(x as int));
                        assert(s1.indexed_text(x as int) == pre.indexed_text(x as int));
                    }
                } else {
                    assert(self.parts(x as int) =~= mid.parts(x as int));
                    assert(!pre.is_live(x as int));
                    assert(!pre.trigram_index.posting(t).contains(x));
                }
            }
            assert(self.columns == mid.columns);
            assert(self.deleted == mid.deleted);
            self.lemma_ids_kept(mid);
            assert(self.shape());
            assert forall|i: int, j: int| 0 <= i < j < self.deleted@.len() implies #[trigger] self.id_at(i) != #[trigger] self.id_at(j) by {
                assert(s1.id_at(i) != s1.id_at(j));
            }
            assert(self.wf());
            assert(self.same_layout(pre));
            assert forall|rr: int| 0 <= rr < pre.rows() implies self.is_deleted(rr) == pre.is_deleted(rr)
                && #[trigger] self.row_agrees(pre, rr) by {
                assert(s1.row_agrees(pre, rr));
            }
            assert forall|rr: int, c: int| 0 <= rr < pre.rows() && 0 <= c < self.num_columns() implies #[trigger] self.cell(rr, c)
                == pre.cell(rr, c) by {
                assert(self.row_agrees(pre, rr));
                self.lemma_row_agrees(pre, rr);
            }
            assert forall|c: int| 0 <= c < self.num_columns() implies #[trigger] self.cell(n as int, c)
                == stored_view(pre.column_is_text(c), field_of(row@, pre.column_name(c))) by {
                assert(s1.cell(n as int, c) == stored_view(pre.column_is_text(c), field_of(row@, pre.column_name(c))));
            }
        }
        Ok(n as u32)
    }
}

impl GridStore {
    /// Whether row `r` passes the filter: the case-folded text of one of its
    /// indexed cells holds it.
    fn row_matches_filter(&self, r: usize) -> (b: bool)
        requires
            self.shape(),
            r < self.rows(),
        ensures
            b == self.matches(r as int, self.view.filter_text@),
    {
        let f = self.view.filter_text.as_slice();
        if f.len() == 0 {
            return true;
        }
        let mut k: usize = 0;
        while k < self.indexed_columns.len()
            invariant
                self.shape(),
                r < self.rows(),
                f@ == self.view.filter_text@,
                f@.len() > 0,
                k <= self.indexed_columns@.len(),
                forall|j: int| 0 <= j < k ==> !#[trigger] contains(
                    lower(self.cell_bytes(r as int, self.indexed_columns@[j] as int)),
                    f@,
                ),
            decreases self.indexed_columns@.len() - k,
        {
            let c = self.indexed_columns[k];
            assert(self.columns@[c as int].data.spec_len() == self.deleted@.len());
            let s = self.columns[c].data.get_string(r).unwrap();
            let low = ascii_lower(s.as_str().as_bytes());
            if contains_bytes(low.as_slice(), f) {
                assert(low@ == lower(self.cell_bytes(r as int, c as int)));
                assert(contains(lower(self.cell_bytes(r as int, self.indexed_columns@[k as int] as int)), self.view.filter_text@));
                return true;
            }
            k += 1;
        }
        false
    }

    /// Materializes the view unless it is cached.
    #[verifier::spinoff_prover]
    fn ensure_view(&mut self)
        requires
            old(self).wf(),
        ensures
            final(self).wf(),
            final(self).same_content(*old(self)),
            final(self).cached() matches Some(v) && final(self).is_view(v),
            old(self).cached() is Some ==> final(self).cached() == old(self).cached(),
    {
        if self.view.cached_view.is_some() {
            return;
        }
        let n = self.deleted.len();
        let mut rows: Vec<u32> = Vec::new();
        let flen = self.view.filter_text.len();
        if flen < 3 {
            let mut r: usize = 0;
            while r < n
                invariant
                    self.wf(),
                    n == self.deleted@.len(),
                    r <= n,
                    rows@.no_duplicates(),
                    forall|x: u32| rows@.contains(x) <==> (x < r && self.in_view(x as int)),
                    forall|i: int| 0 <= i < rows@.len() ==> rows@[i] < r,
                decreases n - r,
            {
                if !self.deleted[r] && self.row_matches_filter(r) {
                    assert(!rows@.contains(r as u32));
                    let ghost before = rows@;
                    rows.push(r as u32);
                    assert forall|x: u32| rows@.contains(x) <==> (x < r + 1 && self.in_view(x as int)) by {
                        if rows@.contains(x) && x != r as u32 {
                            let i = choose|i: int| 0 <= i < rows@.len() && rows@[i] == x;
                            assert(before[i] == x);
                        }
                        if x < r && self.in_view(x as int) {
                            let i = choose|i: int| 0 <= i < before.len() && before[i] == x;
                            assert(rows@[i] == x);
                        }
                        if x == r as u32 {
                            assert(rows@[before.len() as int] == x);
                        }
                    }
                }
                r += 1;
            }
        } else {
            let cands = self.trigram_index.search(self.view.filter_text.as_slice());
            proof {
                assert(lower(self.view.filter_text@) == self.view.filter_text@);
                assert forall|x: u32| self.in_view(x as int) implies cands@.contains(x) by {
                    assert forall|t: u32| #[trigger] trigrams(lower(self.view.filter_text@)).contains(t) implies self.trigram_index.posting(t).contains(x) by {
                        self.lemma_match_in_postings(x, t);
                    }
                }
            }
            let mut i: usize = 0;
            while i < cands.len()
                invariant
                    self.wf(),
                    n == self.deleted@.len(),
                    i <= cands@.len(),
                    cands@.no_duplicates(),
                    forall|x: u32| self.in_view(x as int) ==> cands@.contains(x),
                    rows@.no_duplicates(),
                    forall|x: u32| rows@.contains(x) <==> (cands@.subrange(0, i as int).contains(x) && self.in_view(x as int)),
                    forall|k: int| 0 <= k < rows@.len() ==> rows@[k] < n,
                decreases cands@.len() - i,
            {
                let x = cands[i];
                let ghost seen = cands@.subrange(0, i as int);
                let ghost upto = seen.push(x);
                assert(cands@.subrange(0, i + 1) =~= upto);
                assert(!seen.contains(x)) by {
                    if seen.contains(x) {
                        let a = choose|a: int| 0 <= a < i && seen[a] == x;
                        assert(cands@[a] == cands@[i as int]);
                    }
                }
                if (x as usize) < n && !self.deleted[x as usize] && self.row_matches_filter(x as usize) {
                    let ghost before = rows@;
                    assert(!before.contains(x));
                    rows.push(x);
                    assert forall|a: int, b: int| 0 <= a < rows@.len() && 0 <= b < rows@.len() && a != b implies rows@[a] != rows@[b] by {
                        if a == before.len() {
                            assert(before.contains(rows@[b]));
                        } else if b == before.len() {
                            assert(before.contains(rows@[a]));
                        }
                    }
                    assert forall|y: u32| rows@.contains(y) <==> (cands@.subrange(0, i + 1).contains(y) && self.in_view(y as int)) by {
                        if rows@.contains(y) && y != x {
                            let k = choose|k: int| 0 <= k < rows@.len() && rows@[k] == y;
                            assert(before[k] == y);
                        }
                        if y != x && cands@.subrange(0, i + 1).contains(y) {
                            let k = choose|k: int| 0 <= k < upto.len() && upto[k] == y;
                            assert(seen[k] == y);
                        }
                        if y != x && seen.contains(y) && self.in_view(y as int) {
                            let k = choose|k: int| 0 <= k < before.len() && before[k] == y;
                            assert(rows@[k] == y);
                        }
                        if y == x {
                            assert(rows@[before.len() as int] == x);
                            assert(upto[i as int] == x);
                        }
                    }
                } else {
                    assert forall|y: u32| rows@.contains(y) <==> (cands@.subrange(0, i + 1).contains(y) && self.in_view(y as int)) by {
                        if y != x && cands@.subrange(0, i + 1).contains(y) {
                            let k = choose|k: int| 0 <= k < upto.len() && upto[k] == y;
                            assert(seen[k] == y);
                        }
                        if y != x && seen.contains(y) {
                            let k = choose|k: int| 0 <= k < i && seen[k] == y;
                            assert(upto[k] == y);
                        }
                    }
                }
                i += 1;
            }
            assert(cands@.subrange(0, cands@.len() as int) =~= cands@);
        }
        let ghost unsorted = rows@;
        let key: Option<(&ColumnData, bool)> = match self.view.sort_column {
            Option::Some(c) => if self.view.sort_dir != SortDir::Unsorted {
                Option::Some((&self.columns[c].data, self.view.sort_dir == SortDir::Desc))
            } else {
                Option::None
            },
            Option::None => Option::None,
        };
        assert(view_key(key) == self.sort_key());
        proof {
            if let Option::Some((d, _)) = key {
                assert(d.spec_len() == n);
            }
        }
        sort_rows(&mut rows, key);
        proof {
            broadcast use vstd::seq_lib::group_to_multiset_ensures;
            unsorted.lemma_multiset_has_no_duplicates();
            rows@.lemma_multiset_has_no_duplicates_conv();
            assert forall|x: u32| rows@.contains(x) <==> unsorted.contains(x) by {
                assert(rows@.to_multiset().count(x) == unsorted.to_multiset().count(x));
            }
            assert forall|i: int, j: int| 0 <= i < j < rows@.len() implies row_before(self.sort_key(), #[trigger] rows@[i], #[trigger] rows@[j]) by {
                lemma_before_total(self.sort_key(), rows@[i], rows@[j]);
            }
        }
        let ghost sorted = rows@;
        self.view.cached_view = Option::Some(rows);
        proof {
            let pre = *old(self);
            assert(self.same_content(pre));
            self.lemma_ids_kept(pre);
            assert forall|i: int, j: int| 0 <= i < j < self.deleted@.len() implies #[trigger] self.id_at(i) != #[trigger] self.id_at(j) by {
                assert(pre.id_at(i) != pre.id_at(j));
            }
            assert forall|t: u32, x: u32| #[trigger]
                self.trigram_index.posting(t).contains(x) <==> (self.is_live(x as int) && trigrams(
                    lower(self.indexed_text(x as int)),
                ).contains(t)) by {
                assert(self.parts(x as int) =~= pre.parts(x as int));
                assert(pre.trigram_index.posting(t).contains(x) <==> (pre.is_live(x as int) && trigrams(
                    lower(pre.indexed_text(x as int)),
                ).contains(t)));
            }
            assert(self.sort_key() == pre.sort_key());
            assert forall|x: u32| sorted.contains(x) <==> self.in_view(x as int) by {
                if (x as int) < self.rows() {
                    assert(self.same_layout(pre));
                    assert(self.row_agrees(pre, x as int));
                    self.lemma_row_agrees(pre, x as int);
                }
                assert(self.in_view(x as int) == pre.in_view(x as int));
            }
            assert(self.is_view(sorted));
        }
    }
}

impl GridStore {
    /// Writes `changes` to live row `r` and moves the row in the trigram index.
    #[verifier::spinoff_prover]
    fn apply_changes(&mut self, r: usize, changes: &Vec<(String, Value)>)
        requires
            old(self).wf(),
            old(self).is_live(r as int),
        ensures
            final(self).wf(),
            final(self).updated(*old(self), r as int, changes@),
    {
        let ghost pre = *self;
        let old_text = self.indexed_text_of(r);
        let mut c: usize = 0;
        while c < self.columns.len()
            invariant
                pre.wf(),
                pre.is_live(r as int),
                self.deleted == pre.deleted,
                self.id_column == pre.id_column,
                self.indexed_columns == pre.indexed_columns,
                self.trigram_index == pre.trigram_index,
                self.id_map == pre.id_map,
                self.view == pre.view,
                self.columns@.len() == pre.columns@.len(),
                c <= self.columns@.len(),
                forall|j: int|
                    0 <= j < self.columns@.len() ==> #[trigger] self.columns@[j].name
                        == pre.columns@[j].name && self.columns@[j].data.same_except(
                        &pre.columns@[j].data,
                        r as int,
                    ),
                forall|j: int|
                    0 <= j < self.columns@.len() ==> #[trigger] self.cell(r as int, j) == if j < c
                        && j != pre.id_column && field_of(changes@, pre.columns@[j].name@) is Some {
                        stored_view(
                            pre.columns@[j].data is Strings,
                            field_of(changes@, pre.columns@[j].name@),
                        )
                    } else {
                        pre.cell(r as int, j)
                    },
                forall|j: int|
                    0 <= j < self.columns@.len() && !(j < c && j != pre.id_column && field_of(
                        changes@,
                        pre.columns@[j].name@,
                    ) is Some) ==> #[trigger] self.columns@[j].data == pre.columns@[j].data,
            decreases self.columns@.len() - c,
        {
            if c != self.id_column {
                match find_field(changes, &self.columns[c].name) {
                    Option::Some(v) => {
                        assert(self.columns@[c as int].data == pre.columns@[c as int].data);
                        assert(pre.columns@[c as int].data.spec_len() == pre.deleted@.len());
                        let ghost before = self.columns@[c as int].data;
                        let ghost prev_cols = self.columns@;
                        self.columns[c].data.set_value(r, v);
                        assert forall|j: int| 0 <= j < self.columns@.len() && j != c implies self.columns@[j] == prev_cols[j] by {}
                        assert(self.columns@[c as int].name == prev_cols[c as int].name);
                        proof {
                            lemma_null_number_is_nan();
                            let d = self.columns@[c as int].data;
                            assert(d.same_except(&before, r as int));
                            match (before, d) {
                                (ColumnData::Strings(a), ColumnData::Strings(b)) => {},
                                (ColumnData::Numbers(a), ColumnData::Numbers(b)) => {},
                                _ => {},
                            }
                        }
                    },
                    Option::None => {},
                }
            }
            c += 1;
        }
        proof {
            assert forall|j: int| 0 <= j < self.columns@.len() implies #[trigger] self.columns@[j].data.spec_len() == pre.deleted@.len()
                && (self.columns@[j].data is Strings) == (pre.columns@[j].data is Strings) by {
                assert(self.columns@[j].name == pre.columns@[j].name);
                assert(pre.columns@[j].data.spec_len() == pre.deleted@.len());
            }
            assert forall|j: int| 0 <= j < self.columns@.len() implies #[trigger] self.columns@[j].name == pre.columns@[j].name
                && (self.columns@[j].data is Strings) == (pre.columns@[j].data is Strings) by {
                assert(self.columns@[j].data.spec_len() == pre.deleted@.len());
            }
            let idc0 = self.id_column as int;
            assert(self.columns@[idc0].name == pre.columns@[idc0].name);
            assert forall|k: int| 0 <= k < self.indexed_columns@.len() implies self.columns@[self.indexed_columns@[k] as int].data is Strings by {
                let c = self.indexed_columns@[k] as int;
                assert(self.columns@[c].name == pre.columns@[c].name);
            }
            assert(self.shape());
            assert(self.same_layout(pre));
            assert forall|rr: int| 0 <= rr < self.rows() && rr != r implies #[trigger] self.row_agrees(pre, rr) by {
                assert forall|j: int| 0 <= j < self.columns@.len() implies #[trigger] self.columns@[j].data.text_at(rr)
                    == pre.columns@[j].data.text_at(rr) && self.columns@[j].data.number_at(rr)
                    == pre.columns@[j].data.number_at(rr) by {
                    assert(self.columns@[j].name == pre.columns@[j].name);
                    let d = self.columns@[j].data;
                    let od = pre.columns@[j].data;
                    assert(d.same_except(&od, r as int));
                    assert(od.spec_len() == pre.deleted@.len());
                    match (od, d) {
                        (ColumnData::Strings(a), ColumnData::Strings(b)) => {
                            assert(a@[rr] == b@[rr]);
                        },
                        (ColumnData::Numbers(a), ColumnData::Numbers(b)) => {
                            assert(a@[rr] == b@[rr]);
                        },
                        _ => {},
                    }
                }
                self.lemma_row_agrees(pre, rr);
            }
            assert(self.id_at(r as int) == pre.id_at(r as int));
            assert forall|i: int, j: int| 0 <= i < j < self.deleted@.len() implies #[trigger] self.id_at(i) != #[trigger] self.id_at(j) by {
                if i != r {
                    assert(self.row_agrees(pre, i));
                    self.lemma_row_agrees(pre, i);
                }
                if j != r {
                    assert(self.row_agrees(pre, j));
                    self.lemma_row_agrees(pre, j);
                }
                assert(pre.id_at(i) != pre.id_at(j));
            }
        }
        let new_text = self.indexed_text_of(r);
        let ghost mid = *self;
        let ghost idc0 = self.id_column as int;
        assert(self.columns@[idc0].data == pre.columns@[idc0].data);
        self.trigram_index.update(r as u32, old_text.as_slice(), new_text.as_slice());
        self.view.invalidate();
        proof {
            assert(self.columns == mid.columns);
            assert forall|t: u32, x: u32| #[trigger]
                self.trigram_index.posting(t).contains(x) <==> (self.is_live(x as int) && trigrams(
                    lower(self.indexed_text(x as int)),
                ).contains(t)) by {
                assert(self.parts(x as int) =~= mid.parts(x as int));
                assert(pre.trigram_index.posting(t).contains(x) <==> (pre.is_live(x as int) && trigrams(
                    lower(pre.indexed_text(x as int)),
                ).contains(t)));
                if x != r as u32 && (x as int) < self.rows() {
                    assert(mid.row_agrees(pre, x as int));
                    mid.lemma_row_agrees(pre, x as int);
                }
            }
            assert forall|i: int, j: int| 0 <= i < j < self.deleted@.len() implies #[trigger] self.id_at(i) != #[trigger] self.id_at(j) by {
                assert(mid.id_at(i) != mid.id_at(j));
            }
            assert(self.shape());
            assert(self.columns@[idc0].data == pre.columns@[idc0].data);
            assert forall|rr: int| #[trigger] self.id_at(rr) == pre.id_at(rr) by {}
            self.lemma_ids_kept(pre);
            assert(self.wf());
            assert forall|rr: int, c: int| 0 <= c < self.num_columns() implies #[trigger] self.cell(rr, c) == if rr == r && c
                != pre.id_column() && field_of(changes@, pre.column_name(c)) is Some {
                stored_view(pre.column_is_text(c), field_of(changes@, pre.column_name(c)))
            } else {
                pre.cell(rr, c)
            } by {
                assert(self.columns@[c].name == pre.columns@[c].name);
                if rr == r {
                    assert(mid.cell(rr, c) == self.cell(rr, c));
                } else {
                    let d = self.columns@[c].data;
                    let od = pre.columns@[c].data;
                    assert(d.same_except(&od, r as int));
                    match (od, d) {
                        (ColumnData::Strings(a), ColumnData::Strings(b)) => {
                            if 0 <= rr < a@.len() {
                                assert(a@[rr] == b@[rr]);
                            }
                        },
                        (ColumnData::Numbers(a), ColumnData::Numbers(b)) => {
                            if 0 <= rr < a@.len() {
                                assert(a@[rr] == b@[rr]);
                            }
                        },
                        _ => {},
                    }
                }
            }
        }
    }

    /// The live row whose primary key is `id`.
    fn find_live_row(&self, id: &str) -> (r: Option<usize>)
        requires
            self.wf(),
        ensures
            r is None <==> self.live_row_of_id(id@) is None,
            r matches Some(x) ==> self.live_row_of_id(id@) == Some(x as int) && self.is_live(x as int),
    {
        match self.find_row(id) {
            Option::Some(r) => if self.deleted[r] {
                Option::None
            } else {
                Option::Some(r)
            },
            Option::None => Option::None,
        }
    }

    /// Writes `changes` to the live row whose primary key is `id`: every column
    /// that `changes` names takes the field's value, but the primary key, which
    /// never changes. `NotFound` when no live row has that key.
    pub fn update(&mut self, id: &str, changes: &Vec<(String, Value)>) -> (r: Result<(), StoreError>)
        requires
            old(self).wf(),
        ensures
            final(self).wf(),
            r is Err <==> old(self).live_row_of_id(id@) is None,
            r matches Err(e) ==> e == StoreError::NotFound && *final(self) == *old(self),
            r is Ok ==> final(self).updated(*old(self), old(self).live_row_of_id(id@)->Some_0, changes@),
    {
        match self.find_live_row(id) {
            Option::Some(row) => {
                self.apply_changes(row, changes);
                Ok(())
            },
            Option::None => Err(StoreError::NotFound),
        }
    }

    /// Marks the live row whose primary key is `id` deleted and takes it out of
    /// the trigram index. `NotFound` when no live row has that key.
    #[verifier::spinoff_prover]
    pub fn delete(&mut self, id: &str) -> (r: Result<(), StoreError>)
        requires
            old(self).wf(),
        ensures
            final(self).wf(),
            r is Err <==> old(self).live_row_of_id(id@) is None,
            r matches Err(e) ==> e == StoreError::NotFound && *final(self) == *old(self),
            r is Ok ==> final(self).deleted_row(*old(self), old(self).live_row_of_id(id@)->Some_0),
    {
        let row = match self.find_live_row(id) {
            Option::Some(row) => row,
            Option::None => {
                return Err(StoreError::NotFound);
            },
        };
        let ghost pre = *self;
        let text = self.indexed_text_of(row);
        self.trigram_index.remove(row as u32, text.as_slice());
        self.deleted.set(row, true);
        self.view.invalidate();
        proof {
            assert(self.columns == pre.columns);
            self.lemma_ids_kept(pre);
            assert forall|t: u32, x: u32| #[trigger]
                self.trigram_index.posting(t).contains(x) <==> (self.is_live(x as int) && trigrams(
                    lower(self.indexed_text(x as int)),
                ).contains(t)) by {
                assert(self.parts(x as int) =~= pre.parts(x as int));
                assert(pre.trigram_index.posting(t).contains(x) <==> (pre.is_live(x as int) && trigrams(
                    lower(pre.indexed_text(x as int)),
                ).contains(t)));
            }
            assert forall|i: int, j: int| 0 <= i < j < self.deleted@.len() implies #[trigger] self.id_at(i) != #[trigger] self.id_at(j) by {
                assert(pre.id_at(i) != pre.id_at(j));
            }
            assert(self.shape());
            assert(self.wf());
        }
        Ok(())
    }
}

impl GridStore {
    /// Applies each entry of `updates` in order to the live row that its
    /// primary key field names, skipping entries that name none, and returns
    /// how many were applied. The view is dropped only when one was.
    #[verifier::spinoff_prover]
    pub fn batch_update(&mut self, updates: &Vec<Vec<(String, Value)>>) -> (count: u32)
        requires
            old(self).wf(),
            updates@.len() <= u32::MAX,
        ensures
            final(self).wf(),
            count == old(self).batch_count(updates@),
            final(self).same_layout(*old(self)),
            final(self).rows() == old(self).rows(),
            forall|rr: int| #[trigger] final(self).is_deleted(rr) == old(self).is_deleted(rr),
            forall|rr: int, c: int|
                0 <= c < old(self).num_columns() ==> #[trigger] final(self).cell(rr, c)
                    == old(self).batch_cell(updates@, rr, c),
            final(self).filter() == old(self).filter(),
            final(self).sort() == old(self).sort(),
            count > 0 ==> final(self).cached() is None,
            count == 0 ==> *final(self) == *old(self),
    {
        let ghost pre = *self;
        let mut count: u32 = 0;
        let mut i: usize = 0;
        assert(updates@.subrange(0, 0) =~= Seq::<Vec<(String, Value)>>::empty());
        while i < updates.len()
            invariant
                pre.wf(),
                self.wf(),
                updates@.len() <= u32::MAX,
                i <= updates@.len(),
                count <= i,
                count == pre.batch_count(updates@.subrange(0, i as int)),
                self.same_layout(pre),
                self.deleted == pre.deleted,
                forall|rr: int| #[trigger] self.id_at(rr) == pre.id_at(rr),
                forall|rr: int, c: int|
                    0 <= c < pre.num_columns() ==> #[trigger] self.cell(rr, c) == pre.batch_cell(
                        updates@.subrange(0, i as int),
                        rr,
                        c,
                    ),
                self.view.filter_text == pre.view.filter_text,
                self.view.sort_column == pre.view.sort_column,
                self.view.sort_dir == pre.view.sort_dir,
                count > 0 ==> self.cached() is None,
                count == 0 ==> *self == pre,
            decreases updates@.len() - i,
        {
            let u = &updates[i];
            let ghost prev = *self;
            let ghost sub = updates@.subrange(0, i + 1);
            assert(sub.drop_last() =~= updates@.subrange(0, i as int));
            assert(sub.last() == *u);
            let ghost idc = self.id_column as int;
            assert(self.columns@[idc].name == pre.columns@[idc].name);
            proof {
                assert forall|id: Seq<char>| #[trigger] self.live_row_of_id(id) == pre.live_row_of_id(id) by {
                    self.lemma_same_ids(pre, id);
                }
            }
            let mut applied = false;
            match find_field(u, &self.columns[self.id_column].name) {
                Option::Some(Value::Text(id)) => match self.find_live_row(id.as_str()) {
                    Option::Some(row) => {
                        self.apply_changes(row, u);
                        applied = true;
                        count += 1;
                    },
                    Option::None => {},
                },
                _ => {},
            }
            assert(applied == (pre.batch_target(u@) is Some));
            proof {
                assert forall|rr: int, c: int| 0 <= c < pre.num_columns() implies #[trigger] self.cell(rr, c) == pre.batch_cell(
                        sub,
                        rr,
                        c,
                    ) by {
                    assert(self.columns@.len() == pre.columns@.len());
                    assert(prev.columns@[c].name == pre.columns@[c].name);
                    assert(prev.cell(rr, c) == pre.batch_cell(updates@.subrange(0, i as int), rr, c));
                }
            }
            i += 1;
        }
        assert(updates@.subrange(0, i as int) =~= updates@);
        count
    }

    /// Appends `row` as a new live row and returns its index. A missing or
    /// non-text primary key gives `MissingId`; a key that a row, live or
    /// deleted, already has gives `DuplicateId`.
    pub fn insert(&mut self, row: &Vec<(String, Value)>) -> (r: Result<u32, StoreError>)
        requires
            old(self).wf(),
            old(self).rows() < u32::MAX,
        ensures
            final(self).wf(),
            final(self).inserted(*old(self), row@, r),
    {
        self.insert_row_internal(row)
    }
}

impl GridStore {
    /// Inserts `rows` in order and returns how many there were. Stops at the
    /// first record that fails to insert and returns its error; the records
    /// before it stay inserted.
    #[verifier::spinoff_prover]
    pub fn load_rows(&mut self, rows: &Vec<Vec<(String, Value)>>) -> (r: Result<u32, StoreError>)
        requires
            old(self).wf(),
            old(self).rows() + rows@.len() < u32::MAX,
        ensures
            final(self).wf(),
            r matches Ok(n) ==> n == rows@.len() && final(self).loaded_prefix(*old(self), rows@, n as int)
                && final(self).cached() is None,
            r matches Err(e) ==> {
                let m = final(self).rows() - old(self).rows();
                &&& m < rows@.len()
                &&& final(self).loaded_prefix(*old(self), rows@, m)
                &&& final(self).inserted(*final(self), rows@[m]@, Err(e))
                &&& m > 0 ==> final(self).cached() is None
                &&& m == 0 ==> *final(self) == *old(self)
            },
    {
        let ghost pre = *self;
        let mut i: usize = 0;
        while i < rows.len()
            invariant
                pre == *old(self),
                pre.wf(),
                self.wf(),
                pre.rows() + rows@.len() < u32::MAX,
                i <= rows@.len(),
                self.loaded_prefix(pre, rows@, i as int),
                i > 0 ==> self.cached() is None,
                i == 0 ==> *self == pre,
            decreases rows@.len() - i,
        {
            let ghost prev = *self;
            let res = self.insert_row_internal(&rows[i]);
            match res {
                Err(e) => {
                    assert(*self == prev);
                    assert(self.rows() - pre.rows() == i);
                    assert(self.loaded_prefix(pre, rows@, i as int));
                    assert(self.inserted(*self, rows@[i as int]@, Err(e)));
                    let ghost m = self.rows() - pre.rows();
                    assert(m == i);
                    assert(pre == *old(self));
                    assert(self.loaded_prefix(*old(self), rows@, m));
                    assert(self.inserted(*self, rows@[m]@, Err(e)));
                    return Err(e);
                },
                Ok(x) => {
                    proof {
                        assert(x == prev.rows());
                        assert(!self.is_deleted(x as int));
                        assert forall|rr: int| 0 <= rr < prev.rows() implies #[trigger] self.is_deleted(rr) == prev.is_deleted(rr) by {
                            assert(self.row_agrees(prev, rr));
                        }
                        assert forall|c: int| 0 <= c < self.num_columns() implies #[trigger] self.column_name(c) == pre.column_name(c)
                            && self.column_is_text(c) == pre.column_is_text(c) by {
                            assert(self.columns@[c].name == prev.columns@[c].name);
                            assert(prev.columns@[c].name == pre.columns@[c].name);
                        }
                        assert forall|k: int, c: int|
                            0 <= k < i + 1 && 0 <= c < self.num_columns() implies #[trigger] self.cell(pre.rows() + k, c)
                                == stored_view(pre.column_is_text(c), field_of(rows@[k]@, pre.column_name(c))) by {
                            assert(self.column_name(c) == pre.column_name(c));
                            if k < i {
                                assert(prev.cell(pre.rows() + k, c) == stored_view(pre.column_is_text(c), field_of(rows@[k]@, pre.column_name(c))));
                            }
                        }
                        assert forall|k: int| 0 <= k < i + 1 implies !#[trigger] self.is_deleted(pre.rows() + k) by {
                            if k < i {
                                assert(!prev.is_deleted(pre.rows() + k));
                            }
                        }
                        assert forall|rr: int, c: int|
                            0 <= rr < pre.rows() && 0 <= c < self.num_columns() implies #[trigger] self.cell(rr, c)
                                == pre.cell(rr, c) by {
                            assert(prev.cell(rr, c) == pre.cell(rr, c));
                        }
                        assert forall|rr: int| 0 <= rr < pre.rows() implies #[trigger] self.is_deleted(rr) == pre.is_deleted(rr) by {
                            assert(prev.is_deleted(rr) == pre.is_deleted(rr));
                        }
                        assert(self.same_layout(pre));
                    }
                },
            }
            i += 1;
        }
        let ghost loaded = *self;
        self.view.invalidate();
        proof {
            self.lemma_wf_query_change(loaded);
            assert(self.same_layout(loaded));
            assert forall|c: int| 0 <= c < self.num_columns() implies #[trigger] self.column_name(c) == pre.column_name(c)
                && self.column_is_text(c) == pre.column_is_text(c) by {
                assert(loaded.column_name(c) == pre.column_name(c));
                assert(loaded.columns@[c].name == pre.columns@[c].name);
            }
            assert forall|k: int, c: int|
                0 <= k < i && 0 <= c < self.num_columns() implies #[trigger] self.cell(pre.rows() + k, c)
                    == stored_view(pre.column_is_text(c), field_of(rows@[k]@, pre.column_name(c))) by {
                assert(loaded.cell(pre.rows() + k, c) == stored_view(pre.column_is_text(c), field_of(rows@[k]@, pre.column_name(c))));
            }
            assert forall|k: int| 0 <= k < i implies !#[trigger] self.is_deleted(pre.rows() + k) by {
                assert(!loaded.is_deleted(pre.rows() + k));
            }
            assert forall|rr: int, c: int|
                0 <= rr < pre.rows() && 0 <= c < self.num_columns() implies #[trigger] self.cell(rr, c)
                    == pre.cell(rr, c) by {
                assert(loaded.cell(rr, c) == pre.cell(rr, c));
            }
            assert forall|rr: int| 0 <= rr < pre.rows() implies #[trigger] self.is_deleted(rr) == pre.is_deleted(rr) by {
                assert(loaded.is_deleted(rr) == pre.is_deleted(rr));
            }
            assert(self.same_layout(pre));
            assert(self.loaded_prefix(pre, rows@, i as int));
        }
        Ok(i as u32)
    }
}

impl GridStore {
    /// Materializes the view; afterwards it is cached. Nothing else changes.
    fn materialize(&mut self)
        requires
            old(self).wf(),
        ensures
            final(self).wf(),
            final(self).same_content(*old(self)),
            final(self).view() == old(self).view(),
            final(self).cached() == Some(final(self).view()),
            final(self).is_view(final(self).view()),
            old(self).cached() is Some ==> final(self).cached() == old(self).cached(),
    {
        self.ensure_view();
        proof {
            let v = self.cached()->Some_0;
            self.lemma_view_is(v);
            self.lemma_is_view_same(*old(self), v);
            old(self).lemma_view_is(v);
        }
    }

    /// The number of rows in the view.
    pub fn view_count(&mut self) -> (r: usize)
        requires
            old(self).wf(),
        ensures
            final(self).wf(),
            final(self).same_content(*old(self)),
            final(self).view() == old(self).view(),
            final(self).cached() == Some(final(self).view()),
            final(self).is_view(final(self).view()),
            r == old(self).view().len(),
    {
        self.materialize();
        match &self.view.cached_view {
            Option::Some(v) => v.len(),
            Option::None => 0,
        }
    }

    /// The rows of the view from `start`, at most `count` of them.
    pub fn view_indices(&mut self, start: usize, count: usize) -> (r: Vec<u32>)
        requires
            old(self).wf(),
        ensures
            final(self).wf(),
            final(self).same_content(*old(self)),
            final(self).view() == old(self).view(),
            final(self).cached() == Some(final(self).view()),
            final(self).is_view(final(self).view()),
            ({
                let (lo, hi) = window(start as int, count as int, old(self).view().len() as int);
                r@ == old(self).view().subrange(lo, hi)
            }),
    {
        self.materialize();
        let mut out: Vec<u32> = Vec::new();
        match &self.view.cached_view {
            Option::Some(v) => {
                let len = v.len();
                let lo = if start < len {
                    start
                } else {
                    len
                };
                let hi = if count < len - lo {
                    lo + count
                } else {
                    len
                };
                let mut i: usize = lo;
                while i < hi
                    invariant
                        lo <= i <= hi,
                        hi <= v@.len(),
                        out@ == v@.subrange(lo as int, i as int),
                    decreases hi - i,
                {
                    out.push(v[i]);
                    assert(v@.subrange(lo as int, i + 1) =~= v@.subrange(lo as int, i as int).push(v@[i as int]));
                    i += 1;
                }
            },
            Option::None => {},
        }
        out
    }

    /// The record of row `r`: every column's name with the cell's value.
    fn row_to_record(&self, r: u32) -> (rec: Vec<(String, Value)>)
        requires
            self.wf(),
        ensures
            self.is_record(rec@, r as int),
    {
        let mut rec: Vec<(String, Value)> = Vec::new();
        let mut c: usize = 0;
        while c < self.columns.len()
            invariant
                c <= self.columns@.len(),
                rec@.len() == c,
                forall|j: int|
                    0 <= j < c ==> (#[trigger] rec@[j]).0@ == self.column_name(j) && rec@[j].1@
                        == self.cell(r as int, j),
            decreases self.columns@.len() - c,
        {
            let name = self.columns[c].name.clone();
            let value = self.columns[c].data.to_value(r as usize);
            rec.push((name, value));
            c += 1;
        }
        rec
    }

    /// The records of the given rows, in order. A row that does not exist
    /// gives a record whose every value is `Null`.
    pub fn get_rows(&self, indices: &Vec<u32>) -> (r: Vec<Vec<(String, Value)>>)
        requires
            self.wf(),
        ensures
            r@.len() == indices@.len(),
            forall|i: int| 0 <= i < indices@.len() ==> self.is_record(#[trigger] r@[i]@, indices@[i] as int),
    {
        let mut out: Vec<Vec<(String, Value)>> = Vec::new();
        let mut i: usize = 0;
        while i < indices.len()
            invariant
                self.wf(),
                i <= indices@.len(),
                out@.len() == i,
                forall|k: int| 0 <= k < i ==> self.is_record(#[trigger] out@[k]@, indices@[k] as int),
            decreases indices@.len() - i,
        {
            out.push(self.row_to_record(indices[i]));
            i += 1;
        }
        out
    }

    /// The records of the rows of the view from `start`, at most `count` of them.
    pub fn get_visible_rows(&mut self, start: usize, count: usize) -> (r: Vec<Vec<(String, Value)>>)
        requires
            old(self).wf(),
        ensures
            final(self).wf(),
            final(self).same_content(*old(self)),
            final(self).view() == old(self).view(),
            final(self).cached() == Some(final(self).view()),
            ({
                let (lo, hi) = window(start as int, count as int, old(self).view().len() as int);
                &&& r@.len() == hi - lo
                &&& forall|i: int|
                    0 <= i < r@.len() ==> final(self).is_record(
                        #[trigger] r@[i]@,
                        old(self).view()[lo + i] as int,
                    )
            }),
    {
        let rows = self.view_indices(start, count);
        self.get_rows(&rows)
    }

    /// The column named `name`.
    fn find_column(&self, name: &str) -> (r: Option<usize>)
        requires
            self.wf(),
        ensures
            r is None <==> self.column_of(name@) is None,
            r matches Some(c) ==> self.column_of(name@) == Some(c as int) && c < self.num_columns(),
    {
        let mut c: usize = 0;
        while c < self.columns.len()
            invariant
                self.wf(),
                c <= self.columns@.len(),
                forall|j: int| 0 <= j < c ==> self.columns@[j].name@ != name@,
            decreases self.columns@.len() - c,
        {
            if same_text(self.columns[c].name.as_str(), name) {
                let ghost w = choose|x: int| 0 <= x < self.columns@.len() && self.columns@[x].name@ == name@;
                assert(w == c) by {
                    if w < c {
                        assert(self.columns@[w].name@ != self.columns@[c as int].name@);
                    } else if w > c {
                        assert(self.columns@[c as int].name@ != self.columns@[w].name@);
                    }
                }
                return Option::Some(c);
            }
            c += 1;
        }
        Option::None
    }

    /// The value of the cell of row `row` in the column named `column`;
    /// `None` when no column has that name.
    pub fn get_cell(&self, row: u32, column: &str) -> (r: Option<Value>)
        requires
            self.wf(),
        ensures
            r is None <==> self.column_of(column@) is None,
            r matches Some(v) ==> v@ == self.cell(row as int, self.column_of(column@)->Some_0),
    {
        match self.find_column(column) {
            Option::Some(c) => Option::Some(self.columns[c].data.to_value(row as usize)),
            Option::None => Option::None,
        }
    }

    /// The column names in declaration order.
    pub fn column_names(&self) -> (r: Vec<String>)
        ensures
            r@.len() == self.num_columns(),
            forall|c: int| 0 <= c < r@.len() ==> (#[trigger] r@[c])@ == self.column_name(c),
    {
        let mut out: Vec<String> = Vec::new();
        let mut c: usize = 0;
        while c < self.columns.len()
            invariant
                c <= self.columns@.len(),
                out@.len() == c,
                forall|j: int| 0 <= j < c ==> (#[trigger] out@[j])@ == self.column_name(j),
            decreases self.columns@.len() - c,
        {
            out.push(self.columns[c].name.clone());
            c += 1;
        }
        out
    }

    /// The number of rows ever inserted, deleted ones included.
    pub fn slot_count(&self) -> (r: usize)
        ensures
            r == self.rows(),
    {
        self.deleted.len()
    }

    /// The number of live rows.
    pub fn row_count(&self) -> (r: usize)
        ensures
            r == self.live_count(),
    {
        let mut n: usize = 0;
        let mut i: usize = 0;
        assert(self.deleted@.subrange(0, 0) =~= Seq::<bool>::empty());
        while i < self.deleted.len()
            invariant
                i <= self.deleted@.len(),
                n <= i,
                n == count_live(self.deleted@.subrange(0, i as int)),
            decreases self.deleted@.len() - i,
        {
            assert(self.deleted@.subrange(0, i + 1).drop_last() =~= self.deleted@.subrange(0, i as int));
            if !self.deleted[i] {
                n += 1;
            }
            i += 1;
        }
        assert(self.deleted@.subrange(0, i as int) =~= self.deleted@);
        n
    }

    /// Sets the filter to the case-folded `search`; the view is dropped only
    /// when the filter changes.
    pub fn set_filter(&mut self, search: &str)
        requires
            old(self).wf(),
        ensures
            final(self).wf(),
            final(self).same_data(*old(self)),
            final(self).sort_setting() == old(self).sort_setting(),
            final(self).filter() == lower(encode_utf8(search@)),
            old(self).filter() == lower(encode_utf8(search@)) ==> *final(self) == *old(self),
            old(self).filter() != lower(encode_utf8(search@)) ==> final(self).cached() is None,
    {
        let ghost pre = *self;
        let f = ascii_lower(search.as_bytes());
        if !crate::trigram::bytes_equal(self.view.filter_text.as_slice(), f.as_slice()) {
            proof {
                lemma_lower_idempotent(encode_utf8(search@));
            }
            self.view.filter_text = f;
            self.view.invalidate();
        }
        proof {
            self.lemma_wf_query_change(pre);
        }
    }

    /// Clears the filter; the view is dropped only when there was one.
    pub fn clear_filter(&mut self)
        requires
            old(self).wf(),
        ensures
            final(self).wf(),
            final(self).same_data(*old(self)),
            final(self).sort_setting() == old(self).sort_setting(),
            final(self).filter().len() == 0,
            old(self).filter().len() == 0 ==> *final(self) == *old(self),
            old(self).filter().len() != 0 ==> final(self).cached() is None,
    {
        let ghost pre = *self;
        if self.view.filter_text.len() > 0 {
            self.view.filter_text = Vec::new();
            self.view.invalidate();
            assert(lower(self.view.filter_text@) =~= self.view.filter_text@);
        }
        proof {
            self.lemma_wf_query_change(pre);
        }
    }

    /// Sorts by the column named `column` in `direction`; `Unsorted` clears
    /// the sort, and a name that no column has sorts by nothing. The view is
    /// dropped only when the setting changes.
    pub fn set_sort(&mut self, column: &str, direction: SortDir)
        requires
            old(self).wf(),
        ensures
            final(self).wf(),
            final(self).same_data(*old(self)),
            final(self).filter() == old(self).filter(),
            direction == SortDir::Unsorted ==> final(self).sort_setting() == (
            Option::<usize>::None,
            SortDir::Unsorted,
            ),
            direction != SortDir::Unsorted ==> final(self).sort_setting() == (
            match old(self).column_of(column@) {
                Some(c) => Some(c as usize),
                None => Option::<usize>::None,
            },
            direction,
            ),
            final(self).sort_setting() == old(self).sort_setting() ==> *final(self) == *old(self),
            final(self).sort_setting() != old(self).sort_setting() ==> final(self).cached() is None,
    {
        let ghost pre = *self;
        if direction == SortDir::Unsorted {
            self.clear_sort();
            return;
        }
        let col = self.find_column(column);
        if col != self.view.sort_column || direction != self.view.sort_dir {
            self.view.sort_column = col;
            self.view.sort_dir = direction;
            self.view.invalidate();
        }
        proof {
            self.lemma_wf_query_change(pre);
        }
    }

    /// Clears the sort; the view is dropped only when there was one.
    pub fn clear_sort(&mut self)
        requires
            old(self).wf(),
        ensures
            final(self).wf(),
            final(self).same_data(*old(self)),
            final(self).filter() == old(self).filter(),
            final(self).sort_setting() == (Option::<usize>::None, SortDir::Unsorted),
            final(self).sort_setting() == old(self).sort_setting() ==> *final(self) == *old(self),
            final(self).sort_setting() != old(self).sort_setting() ==> final(self).cached() is None,
    {
        let ghost pre = *self;
        if self.view.sort_column.is_some() || self.view.sort_dir != SortDir::Unsorted {
            self.view.sort_column = Option::None;
            self.view.sort_dir = SortDir::Unsorted;
            self.view.invalidate();
        }
        proof {
            self.lemma_wf_query_change(pre);
        }
    }
}

/// Case folding twice folds once.
proof fn lemma_lower_idempotent(s: Seq<u8>)
    ensures
        lower(lower(s)) == lower(s),
{
    assert(lower(lower(s)) =~= lower(s));
}

/// The trigram index agrees with the rows: a live row stands in the posting
/// list of every trigram of its case-folded indexed text, and no posting list
/// holds a deleted row.
pub proof fn lemma_index_coherent(s: GridStore, r: int, t: u32)
    requires
        s.wf(),
        0 <= r < s.rows(),
    ensures
        !s.is_deleted(r) && trigrams(lower(s.indexed_text(r))).contains(t) ==> s.posting_holds(t, r),
        s.is_deleted(r) ==> !s.posting_holds(t, r),
        s.posting_holds(t, r) <==> (s.is_live(r) && trigrams(lower(s.indexed_text(r))).contains(t)),
{
    assert(s.trigram_index.posting(t).contains(r as u32) <==> (s.is_live((r as u32) as int) && trigrams(
        lower(s.indexed_text((r as u32) as int)),
    ).contains(t)));
}

/// The indexed text of an existing row is its indexed cells' bytes, in
/// column order, joined by single spaces.
pub proof fn lemma_indexed_text_def(s: GridStore, r: int)
    requires
        s.wf(),
    ensures
        s.indexed_text(r) == join_text(
            Seq::new(s.num_indexed(), |k: int| s.cell_bytes(r, s.indexed_column(k))),
        ),
        forall|c: int| s.is_indexed(c) <==> exists|k: int| 0 <= k < s.num_indexed() && s.indexed_column(k) == c,
        forall|k: int| 0 <= k < s.num_indexed() ==> 0 <= #[trigger] s.indexed_column(k) < s.num_columns(),
{
    assert(s.parts(r) =~= Seq::new(s.num_indexed(), |k: int| s.cell_bytes(r, s.indexed_column(k))));
    assert forall|c: int| s.is_indexed(c) <==> exists|k: int| 0 <= k < s.num_indexed() && s.indexed_column(k) == c by {
        if s.is_indexed(c) {
            let k = choose|k: int| 0 <= k < s.indexed_columns@.len() && s.indexed_columns@[k] == c;
            assert(s.indexed_column(k) == c);
        }
        if exists|k: int| 0 <= k < s.num_indexed() && s.indexed_column(k) == c {
            let k = choose|k: int| 0 <= k < s.num_indexed() && s.indexed_column(k) == c;
            assert(s.indexed_columns@[k] == c);
        }
    }
}

/// The view lists exactly the live rows that pass the filter, each once,
/// ordered by the sort column under its direction with ties by ascending row
/// index; any sequence with these properties is the view.
pub proof fn lemma_view_correct(s: GridStore, v: Seq<u32>)
    requires
        s.wf(),
        s.is_view(v),
    ensures
        s.view() == v,
        forall|x: u32| v.contains(x) <==> s.is_live(x as int) && s.matches(x as int, s.filter()),
        v.no_duplicates(),
        sorted_by(s.sort_key(), v),
{
    s.lemma_view_is(v);
}

/// What `is_view` says, over the store's observations.
pub proof fn lemma_is_view_def(s: GridStore, v: Seq<u32>)
    ensures
        s.is_view(v) == (v.no_duplicates() && (forall|x: u32|
            v.contains(x) <==> s.is_live(x as int) && s.matches(x as int, s.filter()))
            && sorted_by(s.sort_key(), v)),
{
}

/// What `matches` says, over the indexed columns and the cells' bytes.
pub proof fn lemma_matches_def(s: GridStore, r: int, f: Seq<u8>)
    requires
        s.wf(),
    ensures
        s.matches(r, f) == (f.len() == 0 || exists|c: int|
            0 <= c < s.num_columns() && s.is_indexed(c) && #[trigger] contains(
                lower(s.cell_bytes(r, c)),
                f,
            )),
{
    if f.len() > 0 {
        if s.matches(r, f) {
            let k = choose|k: int|
                0 <= k < s.indexed_columns@.len() && #[trigger] contains(
                    lower(s.cell_bytes(r, s.indexed_columns@[k] as int)),
                    f,
                );
            let c = s.indexed_columns@[k] as int;
            assert(s.is_indexed(c));
            assert(contains(lower(s.cell_bytes(r, c)), f));
        }
        if exists|c: int|
            0 <= c < s.num_columns() && s.is_indexed(c) && #[trigger] contains(
                lower(s.cell_bytes(r, c)),
                f,
            ) {
            let c = choose|c: int|
                0 <= c < s.num_columns() && s.is_indexed(c) && #[trigger] contains(
                    lower(s.cell_bytes(r, c)),
                    f,
                );
            let k = choose|k: int| 0 <= k < s.indexed_columns@.len() && s.indexed_columns@[k] == c;
            assert(contains(lower(s.cell_bytes(r, s.indexed_columns@[k] as int)), f));
        }
    }
}

/// A text cell of an existing row reads as its text, whose bytes are `cell_bytes`;
/// the primary key column reads as the row's key; indexed columns are text columns.
pub proof fn lemma_cell_def(s: GridStore, r: int, c: int)
    requires
        s.wf(),
        0 <= r < s.rows(),
        0 <= c < s.num_columns(),
    ensures
        s.column_is_text(c) ==> (s.cell(r, c) is Text && s.cell_bytes(r, c) == cell_sort_bytes(
            s.cell(r, c),
        )),
        s.column_is_text(s.id_column()),
        0 <= s.id_column() < s.num_columns(),
        s.cell(r, s.id_column()) == ValueView::Text(s.id_at(r)),
        s.is_indexed(c) ==> s.column_is_text(c),
{
    assert(s.columns@[c].data.spec_len() == s.deleted@.len());
    assert(s.columns@[s.id_column as int].data.spec_len() == s.deleted@.len());
    if s.is_indexed(c) {
        let k = choose|k: int| 0 <= k < s.indexed_columns@.len() && s.indexed_columns@[k] == c;
        assert(s.indexed_columns@[k] < s.columns@.len());
    }
}

/// The key that names a live row: the one live row with that primary key.
pub proof fn lemma_live_row_of_id_def(s: GridStore, id: Seq<char>, r: int)
    requires
        s.wf(),
    ensures
        s.live_row_of_id(id) == Some(r) <==> (s.is_live(r) && s.id_at(r) == id),
        s.row_of_id(id) == Some(r) <==> (0 <= r < s.rows() && s.id_at(r) == id),
        s.row_of_id(id) is None <==> forall|x: int| 0 <= x < s.rows() ==> s.id_at(x) != id,
{
    if 0 <= r < s.rows() && s.id_at(r) == id {
        let w = choose|x: int| 0 <= x < s.deleted@.len() && s.id_at(x) == id;
        if w < r {
            assert(s.id_at(w) != s.id_at(r));
        } else if w > r {
            assert(s.id_at(r) != s.id_at(w));
        }
    }
}

/// Two stores with the same layout have the same columns.
pub proof fn lemma_same_layout_def(a: GridStore, b: GridStore)
    requires
        a.same_layout(b),
    ensures
        a.num_columns() == b.num_columns(),
        a.id_column() == b.id_column(),
        forall|c: int|
            0 <= c < a.num_columns() ==> #[trigger] a.column_name(c) == b.column_name(c)
                && a.column_is_text(c) == b.column_is_text(c),
        forall|c: int| #[trigger] a.is_indexed(c) == b.is_indexed(c),
{
    assert forall|c: int| 0 <= c < a.num_columns() implies #[trigger] a.column_name(c) == b.column_name(c)
        && a.column_is_text(c) == b.column_is_text(c) by {
        assert(a.columns@[c].name == b.columns@[c].name);
    }
}

/// What an insert leaves behind, over the store's observations.
pub proof fn lemma_inserted_def(
    before: GridStore,
    after: GridStore,
    row: Seq<(String, Value)>,
    r: Result<u32, StoreError>,
)
    requires
        before.wf(),
        after.inserted(before, row, r),
    ensures
        ({
            let id_field = field_of(row, before.column_name(before.id_column()));
            match r {
                Err(e) => after == before && match id_field {
                    Some(Value::Text(k)) => e == StoreError::DuplicateId && before.row_of_id(k@) is Some,
                    _ => e == StoreError::MissingId,
                },
                Ok(x) => {
                    &&& id_field matches Some(Value::Text(k))
                    &&& before.row_of_id(k@) is None
                    &&& x == before.rows()
                    &&& after.rows() == before.rows() + 1
                    &&& after.same_layout(before)
                    &&& !after.is_deleted(x as int)
                    &&& forall|rr: int|
                        0 <= rr < before.rows() ==> #[trigger] after.is_deleted(rr) == before.is_deleted(rr)
                            && after.id_at(rr) == before.id_at(rr)
                    &&& forall|rr: int, c: int|
                        0 <= rr < before.rows() && 0 <= c < after.num_columns() ==> #[trigger] after.cell(rr, c)
                            == before.cell(rr, c)
                    &&& forall|c: int|
                        0 <= c < after.num_columns() ==> #[trigger] after.cell(x as int, c)
                            == stored_view(before.column_is_text(c), field_of(row, before.column_name(c)))
                    &&& after.filter() == before.filter()
                    &&& after.sort() == before.sort()
                    &&& after.cached() is None
                },
            }
        }),
{
    if r is Ok {
        assert forall|rr: int| 0 <= rr < before.rows() implies #[trigger] after.is_deleted(rr) == before.is_deleted(rr)
            && after.id_at(rr) == before.id_at(rr) by {
            assert(after.row_agrees(before, rr));
            let idc = before.id_column as int;
            assert(after.columns@[idc].name == before.columns@[idc].name);
            assert(after.columns@[idc].data.text_at(rr) == before.columns@[idc].data.text_at(rr));
        }
    }
}

/// What an update leaves behind, over the store's observations.
pub proof fn lemma_updated_def(before: GridStore, after: GridStore, r: int, changes: Seq<(String, Value)>)
    requires
        after.updated(before, r, changes),
    ensures
        after.same_layout(before),
        after.rows() == before.rows(),
        forall|rr: int| #[trigger] after.is_deleted(rr) == before.is_deleted(rr),
        forall|rr: int| #[trigger] after.id_at(rr) == before.id_at(rr),
        after.filter() == before.filter(),
        after.sort() == before.sort(),
        after.cached() is None,
        forall|rr: int, c: int|
            0 <= c < after.num_columns() ==> #[trigger] after.cell(rr, c) == if rr == r && c
                != before.id_column() && field_of(changes, before.column_name(c)) is Some {
                stored_view(before.column_is_text(c), field_of(changes, before.column_name(c)))
            } else {
                before.cell(rr, c)
            },
{
}

/// What a delete leaves behind, over the store's observations.
pub proof fn lemma_deleted_row_def(before: GridStore, after: GridStore, r: int)
    requires
        after.deleted_row(before, r),
    ensures
        before.is_live(r),
        after.same_layout(before),
        after.rows() == before.rows(),
        after.is_deleted(r),
        !after.is_live(r),
        forall|rr: int| 0 <= rr < after.rows() && rr != r ==> #[trigger] after.is_deleted(rr) == before.is_deleted(rr),
        forall|rr: int| #[trigger] after.id_at(rr) == before.id_at(rr),
        forall|rr: int, c: int| #[trigger] after.cell(rr, c) == before.cell(rr, c),
        after.filter() == before.filter(),
        after.sort() == before.sort(),
        after.cached() is None,
{
}

/// What `loaded_prefix` says.
pub proof fn lemma_loaded_prefix_def(after: GridStore, before: GridStore, rows: Seq<Vec<(String, Value)>>, m: int)
    ensures
        after.loaded_prefix(before, rows, m) == {
            &&& 0 <= m <= rows.len()
            &&& after.same_layout(before)
            &&& after.rows() == before.rows() + m
            &&& forall|rr: int| 0 <= rr < before.rows() ==> #[trigger] after.is_deleted(rr) == before.is_deleted(rr)
            &&& forall|rr: int, c: int|
                0 <= rr < before.rows() && 0 <= c < after.num_columns() ==> #[trigger] after.cell(rr, c)
                    == before.cell(rr, c)
            &&& forall|k: int| 0 <= k < m ==> !#[trigger] after.is_deleted(before.rows() + k)
            &&& forall|k: int, c: int|
                0 <= k < m && 0 <= c < after.num_columns() ==> #[trigger] after.cell(before.rows() + k, c)
                    == stored_view(before.column_is_text(c), field_of(rows[k]@, before.column_name(c)))
            &&& after.filter() == before.filter()
            &&& after.sort() == before.sort()
        },
{
}

/// The sort key of a view cell: text bytes, or the number's order key with
/// null as the largest.
pub open spec fn cell_sort_bytes(v: ValueView) -> Seq<u8> {
    match v {
        ValueView::Text(t) => encode_utf8(t),
        _ => Seq::empty(),
    }
}

/// The number order key of a cell; null (a NaN) is the largest.
pub open spec fn cell_sort_number(v: ValueView) -> u64 {
    match v {
        ValueView::Number(b) => num_key(b),
        _ => u64::MAX,
    }
}

/// Rows `a` and `b` with cells `x` and `y` in the sort column, in view order.
pub open spec fn cells_before(is_text: bool, desc: bool, x: ValueView, y: ValueView, a: u32, b: u32) -> bool {
    if is_text {
        let p = cell_sort_bytes(x);
        let q = cell_sort_bytes(y);
        if p == q {
            a < b
        } else if desc {
            lex_less(q, p)
        } else {
            lex_less(p, q)
        }
    } else {
        let p = cell_sort_number(x);
        let q = cell_sort_number(y);
        if p == q {
            a < b
        } else if desc {
            q < p
        } else {
            p < q
        }
    }
}

/// The view order over cells: with no sort, ascending row index; with a sort
/// on column `c`, the order of the cells of `c` under the direction, ties by
/// ascending row index.
pub proof fn lemma_sort_key_def(s: GridStore, a: u32, b: u32)
    requires
        s.wf(),
        (a as int) < s.rows(),
        (b as int) < s.rows(),
    ensures
        s.sort() is None ==> row_before(s.sort_key(), a, b) == (a < b),
        s.sort() matches Some((c, desc)) ==> 0 <= c < s.num_columns() && row_before(s.sort_key(), a, b)
            == cells_before(s.column_is_text(c), desc, s.cell(a as int, c), s.cell(b as int, c), a, b),
{
    if let Some((c, desc)) = s.sort() {
        assert(s.columns@[c].data.spec_len() == s.deleted@.len());
        lemma_null_number_is_nan();
        match s.columns@[c].data {
            ColumnData::Numbers(v) => {
                assert(is_nan_bits(v@[a as int]) ==> num_key(v@[a as int]) == u64::MAX);
                assert(is_nan_bits(v@[b as int]) ==> num_key(v@[b as int]) == u64::MAX);
            },
            _ => {},
        }
    }
}

/// A cached view depends on the rows, the filter and the sort alone: two
/// states that differ only in their caches have cached the same rows.
pub proof fn lemma_cache_pure(a: GridStore, b: GridStore)
    requires
        a.wf(),
        b.wf(),
        a.same_content(b),
        a.cached() is Some,
        b.cached() is Some,
    ensures
        a.cached() == b.cached(),
{
    let v = a.cached()->Some_0;
    let w = b.cached()->Some_0;
    a.lemma_is_view_same(b, v);
    a.lemma_view_is(v);
    b.lemma_view_is(v);
    b.lemma_view_is(w);
}

/// A successful insert takes its primary key for good.
pub proof fn lemma_inserted_id_taken(
    before: GridStore,
    after: GridStore,
    row: Seq<(String, Value)>,
    r: Result<u32, StoreError>,
)
    requires
        before.wf(),
        after.wf(),
        after.inserted(before, row, r),
        r is Ok,
    ensures
        field_of(row, before.column_name(before.id_column())) matches Some(Value::Text(k))
            && after.row_of_id(k@) is Some,
{
    let x = r->Ok_0 as int;
    assert(after.id_at(x) == after.columns@[after.id_column as int].data.text_at(x));
    assert(after.cell(x, before.id_column()) == stored_view(
        before.column_is_text(before.id_column()),
        field_of(row, before.column_name(before.id_column())),
    ));
    assert(after.columns@[after.id_column as int].name == before.columns@[before.id_column as int].name);
    assert(after.columns@[after.id_column as int].data.spec_len() == after.deleted@.len());
}

/// Deleting a row keeps its primary key taken.
pub proof fn lemma_delete_keeps_ids(before: GridStore, after: GridStore, r: int, k: Seq<char>)
    requires
        before.wf(),
        after.wf(),
        after.deleted_row(before, r),
    ensures
        after.row_of_id(k) == before.row_of_id(k),
{
    assert forall|x: int| 0 <= x < after.rows() implies #[trigger] after.id_at(x) == before.id_at(x) by {}
    after.lemma_same_ids(before, k);
}

/// Inserting a primary key that a row, live or deleted, already has fails
/// with `DuplicateId` and changes nothing.
pub proof fn lemma_duplicate_rejected(
    before: GridStore,
    after: GridStore,
    row: Seq<(String, Value)>,
    r: Result<u32, StoreError>,
    k: String,
)
    requires
        after.inserted(before, row, r),
        field_of(row, before.column_name(before.id_column())) == Some(Value::Text(k)),
        before.row_of_id(k@) is Some,
    ensures
        r == Err::<u32, StoreError>(StoreError::DuplicateId),
        after == before,
{
}

/// A field that an inserted record lacks reads as the empty text in a text
/// column and as null in a number column; a NaN number reads as null.
pub proof fn lemma_null_semantics(
    before: GridStore,
    after: GridStore,
    row: Seq<(String, Value)>,
    x: u32,
    c: int,
)
    requires
        after.inserted(before, row, Ok(x)),
        0 <= c < before.num_columns(),
    ensures
        field_of(row, before.column_name(c)) is None ==> after.cell(x as int, c) == if before.column_is_text(c) {
            ValueView::Text(Seq::empty())
        } else {
            ValueView::Null
        },
        (field_of(row, before.column_name(c)) matches Some(Value::Number(b)) && is_nan_bits(b)
            && !before.column_is_text(c)) ==> after.cell(x as int, c) == ValueView::Null,
{
    assert(after.columns@.len() == before.columns@.len());
}

/// Updating with no changes leaves every cell as it was.
pub proof fn lemma_update_identity(before: GridStore, after: GridStore, r: int, rr: int, c: int)
    requires
        after.updated(before, r, Seq::empty()),
        0 <= c < after.num_columns(),
    ensures
        after.cell(rr, c) == before.cell(rr, c),
        after.rows() == before.rows(),
        after.is_deleted(rr) == before.is_deleted(rr),
{
}

/// Whether two strings hold the same characters.
fn same_text(a: &str, b: &str) -> (r: bool)
    ensures
        r == (a@ == b@),
{
    let x = a.as_bytes();
    let y = b.as_bytes();
    proof {
        vstd::utf8::encode_utf8_decode_utf8(a@);
        vstd::utf8::encode_utf8_decode_utf8(b@);
    }
    if x.len() != y.len() {
        return false;
    }
    let mut i: usize = 0;
    while i < x.len()
        invariant
            x@ == encode_utf8(a@),
            y@ == encode_utf8(b@),
            x@.len() == y@.len(),
            i <= x@.len(),
            forall|k: int| 0 <= k < i ==> x@[k] == y@[k],
        decreases x@.len() - i,
    {
        if x[i] != y[i] {
            return false;
        }
        i += 1;
    }
    assert(x@ =~= y@);
    true
}

/// Reads a column type: `Some(true)` for text, `Some(false)` for a number,
/// `None` for an unknown spelling.
fn parse_kind(k: &String) -> (r: Option<bool>)
    ensures
        r is None <==> !known_kind(k@),
        r == Some(true) <==> is_text_kind(k@),
{
    proof {
        reveal_strlit("string");
        reveal_strlit("number");
        reveal_strlit("integer");
        assert("string"@ =~= seq!['s', 't', 'r', 'i', 'n', 'g']);
        assert("number"@ =~= seq!['n', 'u', 'm', 'b', 'e', 'r']);
        assert("integer"@ =~= seq!['i', 'n', 't', 'e', 'g', 'e', 'r']);
    }
    if same_text(k.as_str(), "string") {
        Some(true)
    } else if same_text(k.as_str(), "number") || same_text(k.as_str(), "integer") {
        Some(false)
    } else {
        None
    }
}

/// The value of the first field of `row` named `name`.
pub fn find_field<'a>(row: &'a Vec<(String, Value)>, name: &String) -> (r: Option<&'a Value>)
    ensures
        r is None ==> field_of(row@, name@) is None,
        r is Some ==> field_of(row@, name@) == Some(*r->Some_0),
{
    assert(row@.subrange(0, row@.len() as int) =~= row@);
    let mut i: usize = 0;
    while i < row.len()
        invariant
            i <= row@.len(),
            field_of(row@, name@) == field_of(row@.subrange(i as int, row@.len() as int), name@),
        decreases row@.len() - i,
    {
        let ghost rest = row@.subrange(i as int, row@.len() as int);
        assert(rest.drop_first() =~= row@.subrange(i + 1, row@.len() as int));
        if row[i].0 == *name {
            return Some(&row[i].1);
        }
        i += 1;
    }
    None
}

/// Compares two rows in view order.
fn compare_rows(key: Option<(&ColumnData, bool)>, a: u32, b: u32) -> (r: std::cmp::Ordering)
    requires
        key matches Some((d, _)) ==> a < d.spec_len() && b < d.spec_len(),
    ensures
        (r == std::cmp::Ordering::Less) == row_before(view_key(key), a, b),
        (r == std::cmp::Ordering::Greater) == row_before(view_key(key), b, a),
        (r == std::cmp::Ordering::Equal) == (a == b),
{
    let tie = if a < b {
        std::cmp::Ordering::Less
    } else if a > b {
        std::cmp::Ordering::Greater
    } else {
        std::cmp::Ordering::Equal
    };
    match key {
        Option::None => tie,
        Option::Some((data, desc)) => match data {
            ColumnData::Strings(v) => {
                let x = v[a as usize].as_str().as_bytes();
                let y = v[b as usize].as_str().as_bytes();
                proof {
                    lemma_lex_total(x@, y@);
                }
                let c = lex_compare(x, y);
                match c {
                    std::cmp::Ordering::Equal => tie,
                    std::cmp::Ordering::Less => if desc {
                        std::cmp::Ordering::Greater
                    } else {
                        std::cmp::Ordering::Less
                    },
                    std::cmp::Ordering::Greater => if desc {
                        std::cmp::Ordering::Less
                    } else {
                        std::cmp::Ordering::Greater
                    },
                }
            },
            ColumnData::Numbers(v) => {
                let x = number_key(v[a as usize]);
                let y = number_key(v[b as usize]);
                if x == y {
                    tie
                } else if (x < y) != desc {
                    std::cmp::Ordering::Less
                } else {
                    std::cmp::Ordering::Greater
                }
            },
        },
    }
}

/// The sort key that a borrowed key stands for.
pub open spec fn view_key(key: Option<(&ColumnData, bool)>) -> Option<(ColumnData, bool)> {
    match key {
        Option::Some((d, desc)) => Option::Some((*d, desc)),
        Option::None => Option::None,
    }
}

/// Relies on `slice::sort_by`: afterwards the rows are a permutation of the rows
/// before, and no row is followed by one that the comparator puts before it.
#[verifier::external_body]
fn sort_rows(rows: &mut Vec<u32>, key: Option<(&ColumnData, bool)>)
    requires
        key matches Some((d, _)) ==> forall|i: int|
            0 <= i < old(rows)@.len() ==> old(rows)@[i] < d.spec_len(),
    ensures
        final(rows)@.to_multiset() == old(rows)@.to_multiset(),
        forall|i: int, j: int|
            0 <= i < j < final(rows)@.len() ==> !row_before(
                view_key(key),
                final(rows)@[j],
                final(rows)@[i],
            ),
{
    rows.sort_by(|a, b| compare_rows(key, *a, *b));
}

} // verus!
