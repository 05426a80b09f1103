//! Zone summaries of table blocks: per block, the bounds and distinct-count
//! sketch of each column, kept up to date on insert, merged on
//! consolidation, and checked against predicates to skip blocks.
//!
//! The running sum and average of numeric columns and the most common
//! values are floating-point or formatting work kept out of this module.
use vstd::prelude::*;
use crate::value::{Value, ValueView};
use crate::text::str_eq;
use crate::zone_summary::{
    bound_view, evaluate_predicate_against_summary, summary_match_spec, zone_lt, AnalyzedPredicate, BlockDecision,
    HyperLogLog, SummaryMatch, ZoneBounds,
};

verus! {

/// The smaller of two optional bounds in zone order (`o` wins only when smaller).
pub open spec fn lower_of(o: Option<ValueView>, m: Option<ValueView>) -> Option<ValueView> {
    match (o, m) {
        (None, m) => m,
        (Some(o), None) => Some(o),
        (Some(o), Some(m)) => if zone_lt(o, m) { Some(o) } else { Some(m) },
    }
}

/// The larger of two optional bounds in zone order (`o` wins only when larger).
pub open spec fn upper_of(o: Option<ValueView>, m: Option<ValueView>) -> Option<ValueView> {
    match (o, m) {
        (None, m) => m,
        (Some(o), None) => Some(o),
        (Some(o), Some(m)) => if zone_lt(m, o) { Some(o) } else { Some(m) },
    }
}

/// What a block's summary knows of one column.
#[derive(Debug)]
pub struct ColumnZoneSummary {
    /// Column name
    pub column_name: String,
    /// Smallest and largest values, nulls and rows
    pub bounds: ZoneBounds,
    /// Distinct-count sketch of the non-null values
    pub hll: HyperLogLog,
}

/// The sketch is well formed and the nulls are among the rows.
pub open spec fn column_ok(c: ColumnZoneSummary) -> bool {
    &&& c.hll.wf()
    &&& c.bounds.null_count <= c.bounds.row_count
}

impl ColumnZoneSummary {
    /// An empty summary of a column.
    pub fn new(column_name: &str) -> (c: Self)
        ensures
            column_ok(c),
            c.column_name@ == column_name@,
            c.bounds.min is None,
            c.bounds.max is None,
            c.bounds.null_count == 0,
            c.bounds.row_count == 0,
            c.hll.precision_spec() == 12,
            c.hll.count_spec() == 0,
    {
        ColumnZoneSummary { column_name: String::from_str(column_name), bounds: ZoneBounds::new(), hll: HyperLogLog::new(12) }
    }

    /// Account for an inserted value: one more row; a null is counted, any
    /// other value widens the bounds and goes into the sketch.
    pub fn update_incremental(&mut self, value: &Value)
        requires
            column_ok(*old(self)),
            old(self).bounds.row_count < u64::MAX,
            old(self).hll.count_spec() < u64::MAX,
        ensures
            column_ok(*final(self)),
            final(self).column_name == old(self).column_name,
            final(self).bounds.row_count == old(self).bounds.row_count + 1,
            final(self).bounds.null_count == old(self).bounds.null_count + if value@ is Null { 1int } else { 0int },
            value@ is Null ==> bound_view(final(self).bounds.min) == bound_view(old(self).bounds.min)
                && bound_view(final(self).bounds.max) == bound_view(old(self).bounds.max)
                && final(self).hll.count_spec() == old(self).hll.count_spec()
                && final(self).hll.registers_spec() == old(self).hll.registers_spec(),
            !(value@ is Null) ==> bound_view(final(self).bounds.min) == lower_of(Some(value@), bound_view(old(self).bounds.min))
                && bound_view(final(self).bounds.max) == upper_of(Some(value@), bound_view(old(self).bounds.max))
                && final(self).hll.count_spec() == old(self).hll.count_spec() + 1,
            final(self).hll.precision_spec() == old(self).hll.precision_spec(),
    {
        self.bounds.update_incremental(value);
        if !value.is_null() {
            self.hll.add(value);
        }
    }
}

/// The names of the column summaries.
pub open spec fn col_names(cols: Seq<ColumnZoneSummary>) -> Seq<Seq<char>> {
    cols.map_values(|c: ColumnZoneSummary| c.column_name@)
}

/// `j` is the first column named `name`.
pub open spec fn first_named(names: Seq<Seq<char>>, name: Seq<char>, j: int) -> bool {
    &&& 0 <= j < names.len()
    &&& names[j] == name
    &&& forall|q: int| 0 <= q < j ==> names[q] != name
}

/// How a predicate fares against the block: by the summary of its column,
/// `Partial` when the block has none.
pub open spec fn match_in(p: AnalyzedPredicate, cols: Seq<ColumnZoneSummary>) -> SummaryMatch {
    if exists|j: int| first_named(col_names(cols), p.column_name@, j) {
        let j = choose|j: int| first_named(col_names(cols), p.column_name@, j);
        summary_match_spec(
            p.op,
            p.value@,
            bound_view(cols[j].bounds.min),
            bound_view(cols[j].bounds.max),
            cols[j].bounds.null_count,
            cols[j].bounds.row_count,
        )
    } else {
        SummaryMatch::Partial
    }
}

/// The block decision: skip when some predicate cannot match, a full match
/// when every predicate matches every row, a scan otherwise.
pub open spec fn columns_decision(ps: Seq<AnalyzedPredicate>, cols: Seq<ColumnZoneSummary>) -> BlockDecision {
    if exists|i: int| 0 <= i < ps.len() && match_in(ps[i], cols) == SummaryMatch::Impossible {
        BlockDecision::Skip
    } else if forall|i: int| 0 <= i < ps.len() ==> match_in(ps[i], cols) == SummaryMatch::Full {
        BlockDecision::FullMatch
    } else {
        BlockDecision::Scan
    }
}

/// How many of the named values go to column `j`.
pub open spec fn zone_hits(values: Seq<(&str, &Value)>, names: Seq<Seq<char>>, j: int) -> nat
    decreases values.len(),
{
    if values.len() == 0 {
        0
    } else {
        zone_hits(values.drop_last(), names, j) + if first_named(names, values.last().0@, j) { 1nat } else { 0nat }
    }
}

proof fn lemma_zone_hits_bound(values: Seq<(&str, &Value)>, names: Seq<Seq<char>>, j: int)
    ensures
        zone_hits(values, names, j) <= values.len(),
    decreases values.len(),
{
    if values.len() > 0 {
        lemma_zone_hits_bound(values.drop_last(), names, j);
    }
}

/// Appending a new name changes no earlier column's hits, and the new
/// column has none from values whose names were already there.
proof fn lemma_zone_hits_push(values: Seq<(&str, &Value)>, names: Seq<Seq<char>>, n: Seq<char>, j: int)
    requires
        !names.contains(n),
        0 <= j <= names.len(),
        j == names.len() ==> forall|i: int| 0 <= i < values.len() ==> names.contains((#[trigger] values[i]).0@),
    ensures
        j < names.len() ==> zone_hits(values, names.push(n), j) == zone_hits(values, names, j),
        j == names.len() ==> zone_hits(values, names.push(n), j) == 0,
    decreases values.len(),
{
    if values.len() > 0 {
        let vs = values.drop_last();
        assert forall|i: int| 0 <= i < vs.len() implies (j == names.len() ==> names.contains((#[trigger] vs[i]).0@)) by {
            if j == names.len() {
                assert(vs[i] == values[i]);
            }
        }
        lemma_zone_hits_push(vs, names, n, j);
        let t = values.last().0@;
        if j < names.len() {
            assert(first_named(names.push(n), t, j) == first_named(names, t, j)) by {
                if first_named(names, t, j) {
                    assert forall|q: int| 0 <= q < j implies names.push(n)[q] != t by {
                        assert(names.push(n)[q] == names[q]);
                    }
                }
                if first_named(names.push(n), t, j) {
                    assert forall|q: int| 0 <= q < j implies names[q] != t by {
                        assert(names.push(n)[q] == names[q]);
                    }
                }
            }
        } else {
            assert(names.contains(values[values.len() - 1].0@));
            let w = choose|w: int| 0 <= w < names.len() && names[w] == t;
            assert(names.push(n)[w] == t);
        }
    }
}

/// The first column with the name, if any.
fn find_column(cols: &Vec<ColumnZoneSummary>, name: &str) -> (r: Option<usize>)
    ensures
        match r {
            Some(j) => first_named(col_names(cols@), name@, j as int),
            None => !col_names(cols@).contains(name@),
        },
{
    let mut j: usize = 0;
    while j < cols.len()
        invariant
            j <= cols@.len(),
            forall|q: int| 0 <= q < j ==> col_names(cols@)[q] != name@,
        decreases cols@.len() - j,
    {
        if str_eq(cols[j].column_name.as_str(), name) {
            return Some(j);
        }
        j = j + 1;
    }
    None
}

/// Zone summary of a block of rows.
#[derive(Debug)]
pub struct BlockZoneSummary {
    /// Block identifier
    pub block_id: u64,
    /// First row of the block
    pub first_row_id: u64,
    /// Last row inserted into the block
    pub last_row_id: u64,
    /// Rows inserted
    pub row_count: u64,
    /// Per-column summaries
    pub columns: Vec<ColumnZoneSummary>,
}

impl BlockZoneSummary {
    /// Column names occur once and every column summary is well formed.
    pub open spec fn ok(&self) -> bool {
        &&& forall|i: int, j: int| 0 <= i < j < self.columns@.len() ==> col_names(self.columns@)[i] != col_names(self.columns@)[j]
        &&& forall|j: int| 0 <= j < self.columns@.len() ==> column_ok(#[trigger] self.columns@[j])
    }

    /// Room for `n` more values in every column and one more row.
    pub open spec fn has_room(&self, n: nat) -> bool {
        &&& self.row_count < u64::MAX
        &&& forall|j: int| 0 <= j < self.columns@.len() ==> (#[trigger] self.columns@[j]).bounds.row_count + n <= u64::MAX
            && self.columns@[j].hll.count_spec() + n <= u64::MAX
    }

    /// An empty block starting at `first_row_id`.
    pub fn new(block_id: u64, first_row_id: u64) -> (b: Self)
        ensures
            b.ok(),
            b.block_id == block_id,
            b.first_row_id == first_row_id,
            b.last_row_id == first_row_id,
            b.row_count == 0,
            b.columns@.len() == 0,
    {
        BlockZoneSummary { block_id, first_row_id, last_row_id: first_row_id, row_count: 0, columns: Vec::new() }
    }

    /// Account for an inserted row: each named value updates the summary of
    /// its column (created on first sight).
    pub fn update_on_insert(&mut self, row_id: u64, values: &[(&str, &Value)])
        requires
            old(self).ok(),
            old(self).has_room(values@.len()),
        ensures
            final(self).ok(),
            final(self).block_id == old(self).block_id,
            final(self).first_row_id == old(self).first_row_id,
            final(self).last_row_id == row_id,
            final(self).row_count == old(self).row_count + 1,
            final(self).columns@.len() >= old(self).columns@.len(),
            forall|j: int| 0 <= j < old(self).columns@.len() ==> col_names(final(self).columns@)[j] == col_names(old(self).columns@)[j],
            forall|i: int| 0 <= i < values@.len() ==> col_names(final(self).columns@).contains((#[trigger] values@[i]).0@),
            forall|j: int| 0 <= j < final(self).columns@.len() ==> (#[trigger] final(self).columns@[j]).bounds.row_count == (if j
                < old(self).columns@.len() {
                old(self).columns@[j].bounds.row_count as int
            } else {
                0int
            }) + zone_hits(values@, col_names(final(self).columns@), j),
    {
        self.row_count = self.row_count + 1;
        self.last_row_id = row_id;
        let ghost c0 = self.columns@;
        let ghost n = values@.len();
        let mut k: usize = 0;
        proof {
            assert forall|j: int| 0 <= j < c0.len() implies zone_hits(values@.subrange(0, 0), col_names(c0), j) == 0 by {
                assert(values@.subrange(0, 0).len() == 0);
            }
        }
        while k < values.len()
            invariant
                k <= values@.len(),
                n == values@.len(),
                self.columns@.len() >= c0.len(),
                forall|j: int| 0 <= j < c0.len() ==> col_names(self.columns@)[j] == col_names(c0)[j],
                forall|i: int, j: int| 0 <= i < j < self.columns@.len() ==> col_names(self.columns@)[i] != col_names(self.columns@)[j],
                forall|j: int| 0 <= j < self.columns@.len() ==> column_ok(#[trigger] self.columns@[j]),
                forall|i: int| 0 <= i < k ==> col_names(self.columns@).contains((#[trigger] values@[i]).0@),
                forall|j: int| 0 <= j < self.columns@.len() ==> (#[trigger] self.columns@[j]).bounds.row_count == (if j < c0.len() {
                    c0[j].bounds.row_count as int
                } else {
                    0int
                }) + zone_hits(values@.subrange(0, k as int), col_names(self.columns@), j),
                forall|j: int| 0 <= j < c0.len() ==> (#[trigger] c0[j]).bounds.row_count + n <= u64::MAX && c0[j].hll.count_spec() + n <= u64::MAX,
                forall|j: int| 0 <= j < self.columns@.len() ==> (#[trigger] self.columns@[j]).hll.count_spec() <= (if j < c0.len() {
                    c0[j].hll.count_spec() as int
                } else {
                    0int
                }) + k,
                self.block_id == old(self).block_id,
                self.first_row_id == old(self).first_row_id,
                self.last_row_id == row_id,
                self.row_count == old(self).row_count + 1,
            decreases values@.len() - k,
        {
            let (name, value) = values[k];
            let ghost pre = values@.subrange(0, k as int);
            let ghost nxt = values@.subrange(0, k + 1);
            proof {
                assert(nxt.drop_last() =~= pre);
                assert(nxt.last() == values@[k as int]);
            }
            let j = match find_column(&self.columns, name) {
                Some(j) => j,
                None => {
                    let ghost cols_before = self.columns@;
                    self.columns.push(ColumnZoneSummary::new(name));
                    proof {
                        let names0 = col_names(cols_before);
                        assert(col_names(self.columns@) =~= names0.push(name@));
                        assert forall|j: int| 0 <= j < self.columns@.len() implies (#[trigger] self.columns@[j]).bounds.row_count == (if j < c0.len() {
                            c0[j].bounds.row_count as int
                        } else {
                            0int
                        }) + zone_hits(pre, col_names(self.columns@), j) by {
                            assert forall|i: int| 0 <= i < pre.len() implies names0.contains((#[trigger] pre[i]).0@) by {
                                assert(pre[i] == values@[i]);
                            }
                            lemma_zone_hits_push(pre, names0, name@, j);
                            if j < cols_before.len() {
                                assert(self.columns@[j] == cols_before[j]);
                            }
                        }
                        assert forall|i: int, j: int| 0 <= i < j < self.columns@.len() implies col_names(self.columns@)[i] != col_names(self.columns@)[j] by {
                            if j == cols_before.len() {
                                assert(names0[i] == col_names(self.columns@)[i]);
                            }
                        }
                        assert forall|i: int| 0 <= i < k implies col_names(self.columns@).contains((#[trigger] values@[i]).0@) by {
                            assert(names0.contains(values@[i].0@));
                            let w = choose|w: int| 0 <= w < names0.len() && names0[w] == values@[i].0@;
                            assert(col_names(self.columns@)[w] == names0[w]);
                        }
                    }
                    self.columns.len() - 1
                },
            };
            let ghost cols1 = self.columns@;
            proof {
                lemma_zone_hits_bound(pre, col_names(cols1), j as int);
            }
            let mut c = self.columns.remove(j);
            c.update_incremental(value);
            self.columns.insert(j, c);
            proof {
                let names1 = col_names(cols1);
                assert(col_names(self.columns@) =~= names1);
                assert(first_named(names1, name@, j as int));
                assert forall|q: int| 0 <= q < self.columns@.len() implies (#[trigger] self.columns@[q]).bounds.row_count == (if q < c0.len() {
                    c0[q].bounds.row_count as int
                } else {
                    0int
                }) + zone_hits(nxt, col_names(self.columns@), q) by {
                    if q != j {
                        assert(self.columns@[q] == cols1[q]);
                        assert(!first_named(names1, name@, q)) by {
                            if q < j {
                                assert(names1[q] != name@);
                            } else {
                                assert(names1[j as int] == name@);
                            }
                        }
                    }
                }
                assert forall|q: int| 0 <= q < self.columns@.len() implies column_ok(#[trigger] self.columns@[q]) by {
                    if q != j {
                        assert(self.columns@[q] == cols1[q]);
                    }
                }
                assert forall|q: int| 0 <= q < self.columns@.len() implies (#[trigger] self.columns@[q]).hll.count_spec() <= (if q < c0.len() {
                    c0[q].hll.count_spec() as int
                } else {
                    0int
                }) + k + 1 by {
                    if q != j {
                        assert(self.columns@[q] == cols1[q]);
                    }
                }
                assert forall|i: int| 0 <= i < k + 1 implies col_names(self.columns@).contains((#[trigger] values@[i]).0@) by {
                    if i == k {
                        assert(col_names(self.columns@)[j as int] == name@);
                    } else {
                        assert(col_names(cols1).contains(values@[i].0@));
                    }
                }
            }
            k = k + 1;
        }
        proof {
            assert(values@.subrange(0, n as int) =~= values@);
        }
    }

    /// Can this block hold rows matching all the predicates?
    pub fn can_satisfy(&self, predicates: &[AnalyzedPredicate]) -> (r: BlockDecision)
        ensures
            r == columns_decision(predicates@, self.columns@),
    {
        let mut all_full_match = true;
        let mut i: usize = 0;
        while i < predicates.len()
            invariant
                i <= predicates@.len(),
                forall|q: int| 0 <= q < i ==> match_in(predicates@[q], self.columns@) != SummaryMatch::Impossible,
                all_full_match <==> forall|q: int| 0 <= q < i ==> match_in(predicates@[q], self.columns@) == SummaryMatch::Full,
            decreases predicates@.len() - i,
        {
            let pred = &predicates[i];
            let m = match find_column(&self.columns, pred.column_name.as_str()) {
                Some(j) => {
                    proof {
                        let names = col_names(self.columns@);
                        let w = choose|w: int| first_named(names, pred.column_name@, w);
                        if w < j {
                            assert(names[w] != pred.column_name@);
                        } else if w > j {
                            assert(names[j as int] != pred.column_name@);
                        }
                    }
                    evaluate_predicate_against_summary(pred, &self.columns[j].bounds)
                },
                None => {
                    proof {
                        if exists|w: int| first_named(col_names(self.columns@), pred.column_name@, w) {
                            let w = choose|w: int| first_named(col_names(self.columns@), pred.column_name@, w);
                            assert(col_names(self.columns@).contains(col_names(self.columns@)[w]));
                        }
                    }
                    SummaryMatch::Partial
                },
            };
            proof {
                assert(m == match_in(predicates@[i as int], self.columns@));
            }
            match m {
                SummaryMatch::Impossible => {
                    return BlockDecision::Skip;
                },
                SummaryMatch::Partial => {
                    all_full_match = false;
                },
                SummaryMatch::Full => {},
            }
            i = i + 1;
        }
        if all_full_match {
            BlockDecision::FullMatch
        } else {
            BlockDecision::Scan
        }
    }
}

/// The first of the first `k` columns of `others` with the name, if any.
pub open spec fn other_col(others: Seq<ColumnZoneSummary>, name: Seq<char>, k: int) -> Option<ColumnZoneSummary>
    decreases k,
{
    if k <= 0 || k > others.len() {
        None
    } else {
        match other_col(others, name, k - 1) {
            Some(c) => Some(c),
            None => if others[k - 1].column_name@ == name { Some(others[k - 1]) } else { None },
        }
    }
}

proof fn lemma_other_col_none(others: Seq<ColumnZoneSummary>, name: Seq<char>, k: int)
    requires
        0 <= k <= others.len(),
        forall|q: int| 0 <= q < k ==> (#[trigger] others[q]).column_name@ != name,
    ensures
        other_col(others, name, k) is None,
    decreases k,
{
    if k > 0 {
        lemma_other_col_none(others, name, k - 1);
    }
}

/// Rows, nulls, bounds and sketch count of a column summary after merging
/// the other block's summary of the column (if any) into `base` (if any).
pub open spec fn merged_column(c: ColumnZoneSummary, base: Option<ColumnZoneSummary>, o: Option<ColumnZoneSummary>) -> bool {
    let (rows, nulls, min, max, sketched) = match base {
        Some(b) => (b.bounds.row_count as int, b.bounds.null_count as int, bound_view(b.bounds.min), bound_view(b.bounds.max), b.hll.count_spec() as int),
        None => (0int, 0int, None, None, 0int),
    };
    match o {
        Some(x) => {
            &&& c.bounds.row_count == rows + x.bounds.row_count
            &&& c.bounds.null_count == nulls + x.bounds.null_count
            &&& bound_view(c.bounds.min) == lower_of(bound_view(x.bounds.min), min)
            &&& bound_view(c.bounds.max) == upper_of(bound_view(x.bounds.max), max)
            &&& (c.hll.precision_spec() == x.hll.precision_spec() ==> c.hll.count_spec() == sketched + x.hll.count_spec())
        },
        None => {
            &&& c.bounds.row_count == rows
            &&& c.bounds.null_count == nulls
            &&& bound_view(c.bounds.min) == min
            &&& bound_view(c.bounds.max) == max
            &&& c.hll.count_spec() == sketched
        },
    }
}

impl BlockZoneSummary {
    /// Room to merge `other` into this block: the row counts add up, and so
    /// do the counts of each pair of same-named column summaries.
    pub open spec fn room_for(&self, other: &BlockZoneSummary) -> bool {
        &&& self.row_count + other.row_count <= u64::MAX
        &&& forall|i: int, k: int|
            0 <= i < self.columns@.len() && 0 <= k < other.columns@.len() && (#[trigger] self.columns@[i]).column_name@
                == (#[trigger] other.columns@[k]).column_name@ ==> self.columns@[i].bounds.row_count + other.columns@[k].bounds.row_count
                <= u64::MAX && self.columns@[i].hll.count_spec() + other.columns@[k].hll.count_spec() <= u64::MAX
    }

    /// Merge another block's summary into this one (for consolidation): the
    /// rows add up, the last row is the later one, and each of its columns
    /// is merged into this block's summary of the column (created when missing).
    pub fn merge(&mut self, other: &BlockZoneSummary)
        requires
            old(self).ok(),
            other.ok(),
            old(self).room_for(other),
        ensures
            final(self).ok(),
            final(self).block_id == old(self).block_id,
            final(self).first_row_id == old(self).first_row_id,
            final(self).row_count == old(self).row_count + other.row_count,
            final(self).last_row_id == if old(self).last_row_id >= other.last_row_id { old(self).last_row_id } else { other.last_row_id },
            final(self).columns@.len() >= old(self).columns@.len(),
            forall|j: int| 0 <= j < old(self).columns@.len() ==> col_names(final(self).columns@)[j] == col_names(old(self).columns@)[j],
            forall|k: int| 0 <= k < other.columns@.len() ==> col_names(final(self).columns@).contains((#[trigger] other.columns@[k]).column_name@),
            forall|j: int| 0 <= j < final(self).columns@.len() ==> merged_column(
                #[trigger] final(self).columns@[j],
                if j < old(self).columns@.len() { Some(old(self).columns@[j]) } else { None },
                other_col(other.columns@, col_names(final(self).columns@)[j], other.columns@.len() as int),
            ),
    {
        self.row_count = self.row_count + other.row_count;
        if other.last_row_id > self.last_row_id {
            self.last_row_id = other.last_row_id;
        }
        let ghost c0 = self.columns@;
        let ghost oc = other.columns@;
        let mut k: usize = 0;
        proof {
            assert forall|j: int| 0 <= j < c0.len() implies merged_column(#[trigger] c0[j], Some(c0[j]), other_col(oc, col_names(c0)[j], 0)) by {}
        }
        while k < other.columns.len()
            invariant
                other.ok(),
                oc == other.columns@,
                k <= oc.len(),
                self.columns@.len() >= c0.len(),
                forall|j: int| 0 <= j < c0.len() ==> col_names(self.columns@)[j] == col_names(c0)[j],
                forall|i: int, j: int| 0 <= i < j < self.columns@.len() ==> col_names(self.columns@)[i] != col_names(self.columns@)[j],
                forall|j: int| 0 <= j < self.columns@.len() ==> column_ok(#[trigger] self.columns@[j]),
                forall|q: int| 0 <= q < k ==> col_names(self.columns@).contains((#[trigger] oc[q]).column_name@),
                forall|j: int| 0 <= j < self.columns@.len() ==> merged_column(
                    #[trigger] self.columns@[j],
                    if j < c0.len() { Some(c0[j]) } else { None },
                    other_col(oc, col_names(self.columns@)[j], k as int),
                ),
                forall|i: int, q: int|
                    0 <= i < c0.len() && 0 <= q < oc.len() && (#[trigger] c0[i]).column_name@ == (#[trigger] oc[q]).column_name@
                        ==> c0[i].bounds.row_count + oc[q].bounds.row_count <= u64::MAX && c0[i].hll.count_spec() + oc[q].hll.count_spec() <= u64::MAX,
                self.block_id == old(self).block_id,
                self.first_row_id == old(self).first_row_id,
                self.row_count == old(self).row_count + other.row_count,
                self.last_row_id == if old(self).last_row_id >= other.last_row_id { old(self).last_row_id } else { other.last_row_id },
            decreases oc.len() - k,
        {
            let o = &other.columns[k];
            let ghost name = o.column_name@;
            proof {
                assert forall|q: int| 0 <= q < k implies oc[q].column_name@ != name by {
                    assert(col_names(oc)[q] == oc[q].column_name@);
                    assert(col_names(oc)[k as int] == name);
                }
            }
            let j = match find_column(&self.columns, o.column_name.as_str()) {
                Some(j) => j,
                None => {
                    let ghost cols_before = self.columns@;
                    self.columns.push(ColumnZoneSummary::new(o.column_name.as_str()));
                    proof {
                        let names0 = col_names(cols_before);
                        assert(col_names(self.columns@) =~= names0.push(name));
                        assert forall|i: int, j: int| 0 <= i < j < self.columns@.len() implies col_names(self.columns@)[i] != col_names(self.columns@)[j] by {
                            if j == cols_before.len() {
                                assert(names0[i] == col_names(self.columns@)[i]);
                            }
                        }
                        assert forall|q: int| 0 <= q < k implies col_names(self.columns@).contains((#[trigger] oc[q]).column_name@) by {
                            assert(names0.contains(oc[q].column_name@));
                            let w = choose|w: int| 0 <= w < names0.len() && names0[w] == oc[q].column_name@;
                            assert(col_names(self.columns@)[w] == names0[w]);
                        }
                        let n = cols_before.len() as int;
                        lemma_other_col_none(oc, name, k as int);
                        assert(merged_column(self.columns@[n], None, other_col(oc, col_names(self.columns@)[n], k as int)));
                        assert forall|j: int| 0 <= j < self.columns@.len() implies merged_column(
                            #[trigger] self.columns@[j],
                            if j < c0.len() { Some(c0[j]) } else { None },
                            other_col(oc, col_names(self.columns@)[j], k as int),
                        ) by {
                            if j < n {
                                assert(self.columns@[j] == cols_before[j]);
                                assert(col_names(self.columns@)[j] == col_names(cols_before)[j]);
                            }
                        }
                    }
                    self.columns.len() - 1
                },
            };
            let ghost cols1 = self.columns@;
            let ghost names1 = col_names(cols1);
            proof {
                assert(names1[j as int] == name);
                lemma_other_col_none(oc, name, k as int);
                if (j as int) < c0.len() {
                    assert(c0[j as int].column_name@ == oc[k as int].column_name@) by {
                        assert(col_names(c0)[j as int] == names1[j as int]);
                    }
                }
            }
            let mut c = self.columns.remove(j);
            let min = match &o.bounds.min {
                Some(v) => Some(v),
                None => None,
            };
            let max = match &o.bounds.max {
                Some(v) => Some(v),
                None => None,
            };
            c.bounds.merge_bound_values(min, max);
            c.bounds.null_count = c.bounds.null_count + o.bounds.null_count;
            c.bounds.row_count = c.bounds.row_count + o.bounds.row_count;
            c.hll.merge(&o.hll);
            self.columns.insert(j, c);
            proof {
                assert(col_names(self.columns@) =~= names1);
                assert(other_col(oc, name, k + 1) == Some(oc[k as int]));
                assert forall|j2: int| 0 <= j2 < self.columns@.len() implies merged_column(
                    #[trigger] self.columns@[j2],
                    if j2 < c0.len() { Some(c0[j2]) } else { None },
                    other_col(oc, col_names(self.columns@)[j2], k + 1),
                ) by {
                    if j2 != j {
                        assert(self.columns@[j2] == cols1[j2]);
                        assert(names1[j2] != name);
                        assert(other_col(oc, names1[j2], k + 1) == other_col(oc, names1[j2], k as int));
                    }
                }
                assert forall|q: int| 0 <= q < self.columns@.len() implies column_ok(#[trigger] self.columns@[q]) by {
                    if q != j {
                        assert(self.columns@[q] == cols1[q]);
                    }
                }
                assert forall|q: int| 0 <= q < k + 1 implies col_names(self.columns@).contains((#[trigger] oc[q]).column_name@) by {
                    if q == k {
                        assert(col_names(self.columns@)[j as int] == name);
                    } else {
                        assert(names1.contains(oc[q].column_name@));
                    }
                }
            }
            k = k + 1;
        }
    }
}

/// Zone summaries of the blocks of a table.
#[derive(Debug)]
pub struct TableZoneSummaries {
    /// Table name
    pub table_name: String,
    /// Rows per block
    pub block_size: u64,
    /// The blocks' summaries
    pub blocks: Vec<BlockZoneSummary>,
    /// Rows inserted
    pub total_rows: u64,
}

/// The ids of the blocks the predicates do not rule out, in order.
pub open spec fn candidates(blocks: Seq<BlockZoneSummary>, ps: Seq<AnalyzedPredicate>, n: int) -> Seq<u64>
    decreases n,
{
    if n <= 0 {
        Seq::empty()
    } else if columns_decision(ps, blocks[n - 1].columns@) != BlockDecision::Skip {
        candidates(blocks, ps, n - 1).push(blocks[n - 1].block_id)
    } else {
        candidates(blocks, ps, n - 1)
    }
}

/// Block `r` of `after` is the one for `row_id`, its last row is `row_id`,
/// and every other block is as in `before`.
pub open spec fn updated_at(before: Seq<BlockZoneSummary>, after: Seq<BlockZoneSummary>, r: int, row_id: u64, block_size: u64) -> bool {
    &&& 0 <= r < after.len()
    &&& after[r].block_id == row_id / block_size
    &&& after[r].last_row_id == row_id
    &&& forall|q: int| 0 <= q < after.len() && q != r ==> (#[trigger] after[q]) == before[q]
}

impl TableZoneSummaries {
    /// No block summaries yet.
    pub fn new(table_name: &str, block_size: u64) -> (t: Self)
        ensures
            t.table_name@ == table_name@,
            t.block_size == block_size,
            t.blocks@.len() == 0,
            t.total_rows == 0,
    {
        TableZoneSummaries { table_name: String::from_str(table_name), block_size, blocks: Vec::new(), total_rows: 0 }
    }

    /// The index of the summary of the block holding `row_id`, created empty
    /// (starting at the block's first row) when missing.
    pub fn get_block_for_row(&mut self, row_id: u64) -> (r: usize)
        requires
            old(self).block_size > 0,
            forall|q: int| 0 <= q < old(self).blocks@.len() ==> (#[trigger] old(self).blocks@[q]).ok(),
        ensures
            r < final(self).blocks@.len(),
            final(self).blocks@[r as int].block_id == row_id / old(self).block_size,
            forall|q: int| 0 <= q < r ==> (#[trigger] final(self).blocks@[q]).block_id != row_id / old(self).block_size,
            forall|q: int| 0 <= q < final(self).blocks@.len() ==> (#[trigger] final(self).blocks@[q]).ok(),
            final(self).table_name == old(self).table_name,
            final(self).block_size == old(self).block_size,
            final(self).total_rows == old(self).total_rows,
            final(self).blocks@ == old(self).blocks@ || (r == old(self).blocks@.len() && final(self).blocks@ == old(self).blocks@.push(
                final(self).blocks@[r as int],
            ) && final(self).blocks@[r as int].columns@.len() == 0 && final(self).blocks@[r as int].row_count == 0
                && final(self).blocks@[r as int].first_row_id == (row_id / old(self).block_size) * old(self).block_size),
    {
        let block_id = row_id / self.block_size;
        let mut i: usize = 0;
        while i < self.blocks.len()
            invariant
                i <= self.blocks@.len(),
                self.blocks@ == old(self).blocks@,
                self.block_size == old(self).block_size,
                forall|q: int| 0 <= q < old(self).blocks@.len() ==> (#[trigger] old(self).blocks@[q]).ok(),
                block_id == row_id / self.block_size,
                forall|q: int| 0 <= q < i ==> (#[trigger] self.blocks@[q]).block_id != block_id,
            decreases self.blocks@.len() - i,
        {
            if self.blocks[i].block_id == block_id {
                return i;
            }
            i = i + 1;
        }
        proof {
            assert(block_id * self.block_size <= row_id) by (nonlinear_arith)
                requires
                    block_id == row_id / self.block_size,
                    self.block_size > 0,
            ;
        }
        let first_row_id = block_id * self.block_size;
        self.blocks.push(BlockZoneSummary::new(block_id, first_row_id));
        self.blocks.len() - 1
    }

    /// Account for an inserted row in its block's summary.
    pub fn on_insert(&mut self, row_id: u64, values: &[(&str, &Value)])
        requires
            old(self).block_size > 0,
            old(self).total_rows < u64::MAX,
            forall|q: int| 0 <= q < old(self).blocks@.len() ==> (#[trigger] old(self).blocks@[q]).ok() && old(self).blocks@[q].has_room(values@.len()),
        ensures
            final(self).total_rows == old(self).total_rows + 1,
            final(self).table_name == old(self).table_name,
            final(self).block_size == old(self).block_size,
            forall|q: int| 0 <= q < final(self).blocks@.len() ==> (#[trigger] final(self).blocks@[q]).ok(),
            exists|r: int| #[trigger] updated_at(old(self).blocks@, final(self).blocks@, r, row_id, old(self).block_size),
    {
        let ghost b0 = self.blocks@;
        let r = self.get_block_for_row(row_id);
        let ghost b1 = self.blocks@;
        proof {
            if b1 != b0 {
                assert(b1[r as int].has_room(values@.len()));
            }
        }
        let mut b = self.blocks.remove(r);
        b.update_on_insert(row_id, values);
        self.blocks.insert(r, b);
        self.total_rows = self.total_rows + 1;
        proof {
            assert(self.blocks@ =~= b1.update(r as int, b));
            assert forall|q: int| 0 <= q < self.blocks@.len() && q != r implies (#[trigger] self.blocks@[q]) == b0[q] by {
                assert(self.blocks@[q] == b1[q]);
            }
            assert forall|q: int| 0 <= q < self.blocks@.len() implies (#[trigger] self.blocks@[q]).ok() by {
                if q != r {
                    assert(self.blocks@[q] == b1[q]);
                }
            }
            assert(updated_at(b0, self.blocks@, r as int, row_id, self.block_size));
        }
    }

    /// The ids of the blocks whose summaries do not rule the predicates out.
    pub fn get_candidate_blocks(&self, predicates: &[AnalyzedPredicate]) -> (r: Vec<u64>)
        ensures
            r@ == candidates(self.blocks@, predicates@, self.blocks@.len() as int),
    {
        let mut r: Vec<u64> = Vec::new();
        let mut i: usize = 0;
        while i < self.blocks.len()
            invariant
                i <= self.blocks@.len(),
                r@ == candidates(self.blocks@, predicates@, i as int),
            decreases self.blocks@.len() - i,
        {
            if self.blocks[i].can_satisfy(predicates) != BlockDecision::Skip {
                r.push(self.blocks[i].block_id);
            }
            i = i + 1;
        }
        r
    }
}

} // verus!
