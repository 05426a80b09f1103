//! Per-block column statistics used to skip blocks that cannot match a
//! query: distinct-count sketches (HyperLogLog registers), histograms, and
//! the min/max/null bounds against which predicates are checked.
use vstd::prelude::*;
use crate::value::{Value, ValueView};
use crate::art_index::{bytes_lt, lex_lt};
use std::hash::{Hash, Hasher};
use std::collections::hash_map::DefaultHasher;

verus! {

broadcast use vstd::std_specs::bits::axiom_u64_leading_zeros;

/// The precision a HyperLogLog uses for a requested precision: clamped to 4..=18.
pub open spec fn clamp_precision(p: u8) -> u8 {
    if p < 4 {
        4
    } else if p > 18 {
        18
    } else {
        p
    }
}

/// HyperLogLog registers for approximate distinct counting
#[derive(Debug, Clone)]
pub struct HyperLogLog {
    /// Number of registers is 2^precision
    precision: u8,
    /// Register array storing maximum leading zeros
    registers: Vec<u8>,
    /// Count of items added
    count: u64,
}

/// The register a hash selects: its top `precision` bits.
pub open spec fn register_index(hash: u64, precision: u8) -> int {
    (hash >> ((64 - precision) as u64)) as int
}

/// The rank a hash records: one more than the leading zeros of the bits
/// below the register bits.
pub open spec fn register_rank(hash: u64, precision: u8) -> u8 {
    (vstd::std_specs::bits::u64_leading_zeros((hash << (precision as u64)) as u64) + 1) as u8
}

/// The registers after recording `hash`: the selected register keeps the
/// larger of its value and the hash's rank.
pub open spec fn registers_after(regs: Seq<u8>, hash: u64, precision: u8) -> Seq<u8> {
    let i = register_index(hash, precision);
    let r = register_rank(hash, precision);
    if r > regs[i] {
        regs.update(i, r)
    } else {
        regs
    }
}

/// The registers of two sketches merged: the larger value at each position.
pub open spec fn registers_max(a: Seq<u8>, b: Seq<u8>) -> Seq<u8> {
    Seq::new(a.len(), |i: int| if b[i] > a[i] { b[i] } else { a[i] })
}

/// `Hash::hash` of `std`: feed the value to the hasher. Nothing is stated of
/// the hasher's state afterwards: how a value is fed is not specified and
/// differs between releases and platforms.
#[verifier::external_body]
pub(crate) fn feed<T: Hash + ?Sized>(x: &T, state: &mut DefaultHasher) {
    x.hash(state)
}

/// `std`'s default hasher fed the value, then finished.
fn default_hash<T: Hash + ?Sized>(x: &T) -> u64 {
    let mut hasher = DefaultHasher::new();
    feed(x, &mut hasher);
    hasher.finish()
}

/// The hash of a value for distinct counting.
fn hash_value(value: &Value) -> u64 {
    match value {
        Value::Int2(i) => default_hash(i),
        Value::Int4(i) => default_hash(i),
        Value::Int8(i) => default_hash(i),
        Value::String(s) => default_hash(s.as_str()),
        Value::Boolean(b) => default_hash(b),
        Value::Bytes(b) => default_hash(b.as_slice()),
        Value::Null => default_hash(&0u64),
        Value::Timestamp(t) => default_hash(t),
        Value::DictRef { dict_id } => default_hash(dict_id),
        Value::CasRef { hash } => default_hash(hash.as_slice()),
        Value::ColumnarRef => default_hash(&0u64),
    }
}

impl HyperLogLog {
    /// The registers are as many as the precision says.
    pub closed spec fn wf(&self) -> bool {
        &&& 4 <= self.precision <= 18
        &&& self.registers@.len() == (1u64 << (self.precision as u64))
    }

    /// Precision (4..=18).
    pub closed spec fn precision_spec(&self) -> u8 {
        self.precision
    }

    /// Register values.
    pub closed spec fn registers_spec(&self) -> Seq<u8> {
        self.registers@
    }

    /// Number of values added.
    pub closed spec fn count_spec(&self) -> u64 {
        self.count
    }

    /// Create a new HyperLogLog with given precision (clamped to 4..=18);
    /// all registers start at zero.
    pub fn new(precision: u8) -> (h: Self)
        ensures
            h.wf(),
            h.precision_spec() == clamp_precision(precision),
            h.registers_spec() == Seq::new((1u64 << (clamp_precision(precision) as u64)) as nat, |i: int| 0u8),
            h.count_spec() == 0,
    {
        let p: u8 = if precision < 4 {
            4
        } else if precision > 18 {
            18
        } else {
            precision
        };
        let n: usize = 1usize << (p as usize);
        proof {
            assert(1usize << (p as usize) == 1u64 << (p as u64)) by (bit_vector)
                requires
                    4 <= p <= 18,
            ;
        }
        let mut registers: Vec<u8> = Vec::new();
        let mut i: usize = 0;
        while i < n
            invariant
                i <= n,
                registers@ == Seq::new(i as nat, |j: int| 0u8),
            decreases n - i,
        {
            registers.push(0u8);
            i = i + 1;
            proof {
                assert(registers@ =~= Seq::new(i as nat, |j: int| 0u8));
            }
        }
        HyperLogLog { precision: p, registers, count: 0 }
    }

    /// Record a value whose hash is `hash`: the register its top bits select
    /// keeps the larger of its value and the hash's rank.
    pub fn add_hash(&mut self, hash: u64)
        requires
            old(self).wf(),
            old(self).count_spec() < u64::MAX,
        ensures
            final(self).wf(),
            final(self).precision_spec() == old(self).precision_spec(),
            final(self).registers_spec() == registers_after(old(self).registers_spec(), hash, old(self).precision_spec()),
            final(self).count_spec() == old(self).count_spec() + 1,
    {
        let p = self.precision;
        let idx: usize = (hash >> ((64 - p) as u64)) as usize;
        proof {
            assert(hash >> ((64 - p) as u64) < (1u64 << (p as u64))) by (bit_vector)
                requires
                    4 <= p <= 18,
            ;
            assert(hash >> ((64 - p) as u64) < 262144u64) by (bit_vector)
                requires
                    4 <= p <= 18,
            ;
        }
        let remaining: u64 = hash << (p as u64);
        let z: u32 = remaining.leading_zeros();
        proof {
            vstd::std_specs::bits::axiom_u64_leading_zeros(remaining);
            assert(z as int == vstd::std_specs::bits::u64_leading_zeros(remaining));
        }
        let lz: u8 = (z as u8) + 1;
        proof {
            assert(remaining == (hash << (p as u64)) as u64);
            assert(lz == register_rank(hash, p));
            assert(idx as int == register_index(hash, p));
        }
        if lz > self.registers[idx] {
            self.registers.set(idx, lz);
        }
        self.count = self.count + 1;
    }

    /// Add a value. Its hash (from `std`'s default hasher) is recorded as by `add_hash`.
    pub fn add(&mut self, value: &Value)
        requires
            old(self).wf(),
            old(self).count_spec() < u64::MAX,
        ensures
            final(self).wf(),
            final(self).precision_spec() == old(self).precision_spec(),
            exists|h: u64| final(self).registers_spec() == registers_after(old(self).registers_spec(), h, old(self).precision_spec()),
            final(self).count_spec() == old(self).count_spec() + 1,
    {
        let h = hash_value(value);
        self.add_hash(h);
    }

    /// Merge another HyperLogLog into this one; sketches of different
    /// precision are left as they are.
    pub fn merge(&mut self, other: &HyperLogLog)
        requires
            old(self).wf(),
            other.wf(),
            old(self).precision_spec() == other.precision_spec() ==> old(self).count_spec() + other.count_spec() <= u64::MAX,
        ensures
            final(self).wf(),
            final(self).precision_spec() == old(self).precision_spec(),
            old(self).precision_spec() != other.precision_spec() ==> final(self).registers_spec() == old(self).registers_spec()
                && final(self).count_spec() == old(self).count_spec(),
            old(self).precision_spec() == other.precision_spec() ==> final(self).registers_spec() == registers_max(
                old(self).registers_spec(),
                other.registers_spec(),
            ) && final(self).count_spec() == old(self).count_spec() + other.count_spec(),
    {
        if self.precision != other.precision {
            return;
        }
        let ghost r0 = self.registers@;
        let ghost p0 = self.precision;
        let ghost c0 = self.count;
        let n = self.registers.len();
        let mut i: usize = 0;
        while i < n
            invariant
                self.precision == p0,
                self.count == c0,
                p0 == other.precision,
                4 <= p0 <= 18,
                c0 + other.count <= u64::MAX,
                r0.len() == (1u64 << (p0 as u64)),
                n == self.registers@.len(),
                n == r0.len(),
                n == other.registers@.len(),
                i <= n,
                forall|j: int| 0 <= j < i ==> self.registers@[j] == (if other.registers@[j] > r0[j] { other.registers@[j] } else { r0[j] }),
                forall|j: int| i <= j < n ==> self.registers@[j] == r0[j],
            decreases n - i,
        {
            if other.registers[i] > self.registers[i] {
                self.registers.set(i, other.registers[i]);
            }
            i = i + 1;
        }
        proof {
            assert(self.registers@ =~= registers_max(r0, other.registers@));
        }
        self.count = self.count + other.count;
    }

    /// The register values (for estimating the distinct count).
    pub fn registers(&self) -> (r: &[u8])
        ensures
            r@ == self.registers_spec(),
    {
        self.registers.as_slice()
    }

    /// The precision.
    pub fn precision(&self) -> (r: u8)
        ensures
            r == self.precision_spec(),
    {
        self.precision
    }

    /// Number of values added.
    pub fn count(&self) -> (r: u64)
        ensures
            r == self.count_spec(),
    {
        self.count
    }
}

impl Default for HyperLogLog {
    fn default() -> (h: Self)
        ensures
            h.wf(),
            h.precision_spec() == 12,
            h.count_spec() == 0,
    {
        Self::new(12)
    }
}

/// Merging sketches of equal precision is commutative and idempotent.
pub proof fn law_registers_max(a: Seq<u8>, b: Seq<u8>)
    requires
        a.len() == b.len(),
    ensures
        registers_max(a, b) == registers_max(b, a),
        registers_max(a, a) == a,
        registers_max(registers_max(a, b), b) == registers_max(a, b),
{
    assert(registers_max(a, b) =~= registers_max(b, a));
    assert(registers_max(a, a) =~= a);
    assert(registers_max(registers_max(a, b), b) =~= registers_max(a, b));
}

/// Recording the same hash twice changes the registers no more than recording it once.
pub proof fn law_add_hash_idempotent(regs: Seq<u8>, hash: u64, precision: u8)
    requires
        0 <= register_index(hash, precision) < regs.len(),
    ensures
        registers_after(registers_after(regs, hash, precision), hash, precision) == registers_after(regs, hash, precision),
{
}

/// Most Common Value entry
#[derive(Debug, Clone)]
pub struct McvEntry {
    /// The value
    pub value: Value,
    /// How often it occurs
    pub frequency: u64,
}

/// Histogram bucket for selectivity estimation
#[derive(Debug, Clone)]
pub struct HistogramBucket {
    /// Smallest value of the bucket
    pub lower_bound: Value,
    /// Largest value of the bucket
    pub upper_bound: Value,
    /// Rows in the bucket
    pub count: u64,
    /// Distinct values in the bucket
    pub distinct_count: u64,
}

/// Histogram for a column
#[derive(Debug, Clone)]
pub struct Histogram {
    /// The buckets
    pub buckets: Vec<HistogramBucket>,
    /// Number of buckets planned
    pub num_buckets: usize,
    /// Rows counted
    pub total_count: u64,
}

/// The UTF-8 bytes of a text value.
pub open spec fn text_bytes(s: Seq<char>) -> Seq<u8> {
    vstd::utf8::encode_utf8(s)
}

/// Histogram order: `a <= b` for two 64-bit integers or two texts; false otherwise.
pub open spec fn hist_le(a: ValueView, b: ValueView) -> bool {
    match (a, b) {
        (ValueView::Int8(x), ValueView::Int8(y)) => x <= y,
        (ValueView::String(x), ValueView::String(y)) => !lex_lt(text_bytes(y), text_bytes(x)),
        _ => false,
    }
}

/// Does the bucket fall in the range the optional bounds give?
pub open spec fn bucket_in_range(b: HistogramBucket, lower: Option<ValueView>, upper: Option<ValueView>) -> bool {
    match (lower, upper) {
        (Some(l), Some(u)) => hist_le(b.upper_bound@, u) && hist_le(l, b.lower_bound@),
        (Some(l), None) => hist_le(l, b.upper_bound@),
        (None, Some(u)) => hist_le(b.lower_bound@, u),
        (None, None) => true,
    }
}

/// The rows of the buckets (from the first `n`) that fall in the range.
pub open spec fn rows_in_range(bs: Seq<HistogramBucket>, n: int, lower: Option<ValueView>, upper: Option<ValueView>) -> int
    decreases n,
{
    if n <= 0 {
        0
    } else {
        rows_in_range(bs, n - 1, lower, upper) + if bucket_in_range(bs[n - 1], lower, upper) {
            bs[n - 1].count as int
        } else {
            0
        }
    }
}

/// The view of an optional value.
pub open spec fn opt_view(v: Option<&Value>) -> Option<ValueView> {
    match v {
        Some(x) => Some(x@),
        None => None,
    }
}

/// Is `a <= b` in the order of text bytes?
fn text_le(a: &String, b: &String) -> (r: bool)
    ensures
        r == !lex_lt(text_bytes(b@), text_bytes(a@)),
{
    !bytes_lt(b.as_str().as_bytes(), a.as_str().as_bytes())
}

impl Histogram {
    /// An empty histogram planned for `num_buckets` buckets
    pub fn new(num_buckets: usize) -> (h: Self)
        ensures
            h.buckets@.len() == 0,
            h.num_buckets == num_buckets,
            h.total_count == 0,
    {
        Histogram { buckets: Vec::new(), num_buckets, total_count: 0 }
    }

    fn value_le(a: &Value, b: &Value) -> (r: bool)
        ensures
            r == hist_le(a@, b@),
    {
        match (a, b) {
            (Value::Int8(x), Value::Int8(y)) => *x <= *y,
            (Value::String(x), Value::String(y)) => text_le(x, y),
            _ => false,
        }
    }

    /// The number of rows in the buckets that fall in the range (the
    /// numerator of the range selectivity estimate).
    pub fn rows_in_range(&self, lower: Option<&Value>, upper: Option<&Value>) -> (r: u64)
        requires
            rows_in_range(self.buckets@, self.buckets@.len() as int, opt_view(lower), opt_view(upper)) <= u64::MAX,
        ensures
            r == rows_in_range(self.buckets@, self.buckets@.len() as int, opt_view(lower), opt_view(upper)),
    {
        let mut total: u64 = 0;
        let mut i: usize = 0;
        while i < self.buckets.len()
            invariant
                i <= self.buckets@.len(),
                total == rows_in_range(self.buckets@, i as int, opt_view(lower), opt_view(upper)),
                rows_in_range(self.buckets@, self.buckets@.len() as int, opt_view(lower), opt_view(upper)) <= u64::MAX,
            decreases self.buckets@.len() - i,
        {
            let b = &self.buckets[i];
            let inside = match (lower, upper) {
                (Some(l), Some(u)) => Self::value_le(&b.upper_bound, u) && Self::value_le(l, &b.lower_bound),
                (Some(l), None) => Self::value_le(l, &b.upper_bound),
                (None, Some(u)) => Self::value_le(&b.lower_bound, u),
                (None, None) => true,
            };
            proof {
                lemma_rows_monotone(self.buckets@, i + 1, self.buckets@.len() as int, opt_view(lower), opt_view(upper));
            }
            if inside {
                total = total + b.count;
            }
            i = i + 1;
        }
        total
    }
}

/// Counting more buckets never counts fewer rows.
pub proof fn lemma_rows_monotone(bs: Seq<HistogramBucket>, m: int, n: int, lower: Option<ValueView>, upper: Option<ValueView>)
    requires
        0 <= m <= n,
    ensures
        rows_in_range(bs, m, lower, upper) <= rows_in_range(bs, n, lower, upper),
    decreases n - m,
{
    if m < n {
        lemma_rows_monotone(bs, m, n - 1, lower, upper);
    }
}

/// Block decision based on zone summary analysis
#[derive(Debug, Clone, Copy, PartialEq, Eq, Structural)]
pub enum BlockDecision {
    /// Skip the entire block
    Skip,
    /// Scan the block
    Scan,
    /// Block contains all matching rows (optimization hint)
    FullMatch,
}

/// Summary match result
#[derive(Debug, Clone, Copy, PartialEq, Eq, Structural)]
pub enum SummaryMatch {
    /// Impossible - no rows can match
    Impossible,
    /// Partial - some rows might match
    Partial,
    /// Full - all rows match
    Full,
}

/// Comparison operator of a pushed-down predicate
#[derive(Debug, Clone, Copy, PartialEq, Eq, Structural)]
pub enum PredicateOp {
    /// `=`
    Eq,
    /// `<>`
    NotEq,
    /// `<`
    Lt,
    /// `<=`
    LtEq,
    /// `>`
    Gt,
    /// `>=`
    GtEq,
    /// `IS NULL`
    IsNull,
    /// `IS NOT NULL`
    IsNotNull,
}

/// A predicate on one column, compared with a constant
#[derive(Debug, Clone)]
pub struct AnalyzedPredicate {
    /// The column
    pub column_name: String,
    /// The comparison
    pub op: PredicateOp,
    /// The constant
    pub value: Value,
}

/// What a zone summary knows of a column in a block: its smallest and
/// largest values and how many of its rows are null.
#[derive(Debug, Clone)]
pub struct ZoneBounds {
    /// Minimum value
    pub min: Option<Value>,
    /// Maximum value
    pub max: Option<Value>,
    /// Null count
    pub null_count: u64,
    /// Row count
    pub row_count: u64,
}

/// Zone order: `a < b` for two 64-bit integers, two texts or two timestamps; false otherwise.
pub open spec fn zone_lt(a: ValueView, b: ValueView) -> bool {
    match (a, b) {
        (ValueView::Int8(x), ValueView::Int8(y)) => x < y,
        (ValueView::String(x), ValueView::String(y)) => lex_lt(text_bytes(x), text_bytes(y)),
        (ValueView::Timestamp(x), ValueView::Timestamp(y)) => x < y,
        _ => false,
    }
}

/// Zone order: `a <= b` for two 64-bit integers, two texts or two timestamps; false otherwise.
pub open spec fn zone_le(a: ValueView, b: ValueView) -> bool {
    match (a, b) {
        (ValueView::Int8(x), ValueView::Int8(y)) => x <= y,
        (ValueView::String(x), ValueView::String(y)) => !lex_lt(text_bytes(y), text_bytes(x)),
        (ValueView::Timestamp(x), ValueView::Timestamp(y)) => x <= y,
        _ => false,
    }
}

/// Is `a < b` in zone order?
pub fn value_lt(a: &Value, b: &Value) -> (r: bool)
    ensures
        r == zone_lt(a@, b@),
{
    match (a, b) {
        (Value::Int8(x), Value::Int8(y)) => *x < *y,
        (Value::String(x), Value::String(y)) => bytes_lt(x.as_str().as_bytes(), y.as_str().as_bytes()),
        (Value::Timestamp(x), Value::Timestamp(y)) => *x < *y,
        _ => false,
    }
}

/// Is `a <= b` in zone order?
pub fn value_le(a: &Value, b: &Value) -> (r: bool)
    ensures
        r == zone_le(a@, b@),
{
    match (a, b) {
        (Value::Int8(x), Value::Int8(y)) => *x <= *y,
        (Value::String(x), Value::String(y)) => text_le(x, y),
        (Value::Timestamp(x), Value::Timestamp(y)) => *x <= *y,
        _ => false,
    }
}

/// The views of optional bounds.
pub open spec fn bound_view(v: Option<Value>) -> Option<ValueView> {
    match v {
        Some(x) => Some(x@),
        None => None,
    }
}

/// How a predicate fares against a block's bounds: `Impossible` when no
/// row of the block can match, `Full` when every row must (a NULL matches
/// only `IS NULL`, so a comparison is `Full` only in a block without NULLs),
/// `Partial` otherwise.
pub open spec fn summary_match_spec(op: PredicateOp, v: ValueView, min: Option<ValueView>, max: Option<ValueView>, null_count: u64, row_count: u64) -> SummaryMatch {
    match op {
        PredicateOp::Eq => match (min, max) {
            (Some(lo), Some(hi)) => if zone_lt(v, lo) || zone_lt(hi, v) {
                SummaryMatch::Impossible
            } else {
                SummaryMatch::Partial
            },
            _ => SummaryMatch::Partial,
        },
        PredicateOp::Lt => if min matches Some(lo) && zone_le(v, lo) {
            SummaryMatch::Impossible
        } else if max matches Some(hi) && zone_lt(hi, v) && null_count == 0 {
            SummaryMatch::Full
        } else {
            SummaryMatch::Partial
        },
        PredicateOp::LtEq => if min matches Some(lo) && zone_lt(v, lo) {
            SummaryMatch::Impossible
        } else if max matches Some(hi) && zone_le(hi, v) && null_count == 0 {
            SummaryMatch::Full
        } else {
            SummaryMatch::Partial
        },
        PredicateOp::Gt => if max matches Some(hi) && zone_le(hi, v) {
            SummaryMatch::Impossible
        } else if min matches Some(lo) && zone_lt(v, lo) && null_count == 0 {
            SummaryMatch::Full
        } else {
            SummaryMatch::Partial
        },
        PredicateOp::GtEq => if max matches Some(hi) && zone_lt(hi, v) {
            SummaryMatch::Impossible
        } else if min matches Some(lo) && zone_le(v, lo) && null_count == 0 {
            SummaryMatch::Full
        } else {
            SummaryMatch::Partial
        },
        PredicateOp::NotEq => SummaryMatch::Partial,
        PredicateOp::IsNull => if null_count == 0 {
            SummaryMatch::Impossible
        } else if null_count == row_count {
            SummaryMatch::Full
        } else {
            SummaryMatch::Partial
        },
        PredicateOp::IsNotNull => if null_count == row_count {
            SummaryMatch::Impossible
        } else if null_count == 0 {
            SummaryMatch::Full
        } else {
            SummaryMatch::Partial
        },
    }
}

/// Zone-order comparisons of the constant with the bounds, written as the
/// comparisons the predicate names (`v > max` is `max < v`).
fn gt(a: &Value, b: &Value) -> (r: bool)
    ensures
        r == zone_lt(b@, a@),
{
    value_lt(b, a)
}

fn ge(a: &Value, b: &Value) -> (r: bool)
    ensures
        r == zone_le(b@, a@),
{
    value_le(b, a)
}

/// Check a predicate against a block's bounds of its column
pub fn evaluate_predicate_against_summary(pred: &AnalyzedPredicate, summary: &ZoneBounds) -> (r: SummaryMatch)
    ensures
        r == summary_match_spec(pred.op, pred.value@, bound_view(summary.min), bound_view(summary.max), summary.null_count, summary.row_count),
{
    match pred.op {
        PredicateOp::Eq => {
            match (&summary.min, &summary.max) {
                (Some(min), Some(max)) => {
                    if value_lt(&pred.value, min) || gt(&pred.value, max) {
                        return SummaryMatch::Impossible;
                    }
                },
                _ => {},
            }
            SummaryMatch::Partial
        },
        PredicateOp::Lt => {
            if let Some(min) = &summary.min {
                if value_le(&pred.value, min) {
                    return SummaryMatch::Impossible;
                }
            }
            if let Some(max) = &summary.max {
                if summary.null_count == 0 && gt(&pred.value, max) {
                    return SummaryMatch::Full;
                }
            }
            SummaryMatch::Partial
        },
        PredicateOp::LtEq => {
            if let Some(min) = &summary.min {
                if value_lt(&pred.value, min) {
                    return SummaryMatch::Impossible;
                }
            }
            if let Some(max) = &summary.max {
                if summary.null_count == 0 && ge(&pred.value, max) {
                    return SummaryMatch::Full;
                }
            }
            SummaryMatch::Partial
        },
        PredicateOp::Gt => {
            if let Some(max) = &summary.max {
                if ge(&pred.value, max) {
                    return SummaryMatch::Impossible;
                }
            }
            if let Some(min) = &summary.min {
                if summary.null_count == 0 && value_lt(&pred.value, min) {
                    return SummaryMatch::Full;
                }
            }
            SummaryMatch::Partial
        },
        PredicateOp::GtEq => {
            if let Some(max) = &summary.max {
                if gt(&pred.value, max) {
                    return SummaryMatch::Impossible;
                }
            }
            if let Some(min) = &summary.min {
                if summary.null_count == 0 && value_le(&pred.value, min) {
                    return SummaryMatch::Full;
                }
            }
            SummaryMatch::Partial
        },
        PredicateOp::NotEq => SummaryMatch::Partial,
        PredicateOp::IsNull => {
            if summary.null_count == 0 {
                SummaryMatch::Impossible
            } else if summary.null_count == summary.row_count {
                SummaryMatch::Full
            } else {
                SummaryMatch::Partial
            }
        },
        PredicateOp::IsNotNull => {
            if summary.null_count == summary.row_count {
                SummaryMatch::Impossible
            } else if summary.null_count == 0 {
                SummaryMatch::Full
            } else {
                SummaryMatch::Partial
            }
        },
    }
}

/// The match of predicate `p` given the block's summary of its column, if any
/// (a column without a summary must be scanned).
pub open spec fn match_of(p: AnalyzedPredicate, s: Option<ZoneBounds>) -> SummaryMatch {
    match s {
        Some(z) => summary_match_spec(p.op, p.value@, bound_view(z.min), bound_view(z.max), z.null_count, z.row_count),
        None => SummaryMatch::Partial,
    }
}

/// The block decision for the predicates, each with the block's summary of
/// its column: skip when some predicate cannot match, a full match when every
/// predicate matches every row, a scan otherwise.
pub open spec fn block_decision_spec(ps: Seq<AnalyzedPredicate>, ss: Seq<Option<ZoneBounds>>) -> BlockDecision {
    if exists|i: int| 0 <= i < ps.len() && match_of(ps[i], ss[i]) == SummaryMatch::Impossible {
        BlockDecision::Skip
    } else if forall|i: int| 0 <= i < ps.len() ==> match_of(ps[i], ss[i]) == SummaryMatch::Full {
        BlockDecision::FullMatch
    } else {
        BlockDecision::Scan
    }
}

/// Can this block satisfy the predicates? `summaries[i]` is the block's
/// summary of the column of `predicates[i]`, if it has one.
pub fn can_satisfy(predicates: &Vec<AnalyzedPredicate>, summaries: &Vec<Option<ZoneBounds>>) -> (r: BlockDecision)
    requires
        predicates@.len() == summaries@.len(),
    ensures
        r == block_decision_spec(predicates@, summaries@),
{
    let mut all_full_match = true;
    let mut i: usize = 0;
    while i < predicates.len()
        invariant
            predicates@.len() == summaries@.len(),
            i <= predicates@.len(),
            forall|j: int| 0 <= j < i ==> match_of(predicates@[j], summaries@[j]) != SummaryMatch::Impossible,
            all_full_match <==> forall|j: int| 0 <= j < i ==> match_of(predicates@[j], summaries@[j]) == SummaryMatch::Full,
        decreases predicates@.len() - i,
    {
        match &summaries[i] {
            Some(summary) => {
                match evaluate_predicate_against_summary(&predicates[i], summary) {
                    SummaryMatch::Impossible => {
                        return BlockDecision::Skip;
                    },
                    SummaryMatch::Partial => {
                        all_full_match = false;
                    },
                    SummaryMatch::Full => {},
                }
            },
            None => {
                all_full_match = false;
            },
        }
        i = i + 1;
    }
    if all_full_match {
        BlockDecision::FullMatch
    } else {
        BlockDecision::Scan
    }
}

impl ZoneBounds {
    /// Bounds of an empty column.
    pub fn new() -> (z: Self)
        ensures
            z.min is None,
            z.max is None,
            z.null_count == 0,
            z.row_count == 0,
    {
        ZoneBounds { min: None, max: None, null_count: 0, row_count: 0 }
    }

    /// Account for an inserted value: one more row, one more null for a
    /// null, and otherwise a new minimum or maximum where the value is
    /// smaller than the minimum or larger than the maximum in zone order.
    pub fn update_incremental(&mut self, value: &Value)
        requires
            old(self).row_count < u64::MAX,
            old(self).null_count <= old(self).row_count,
        ensures
            final(self).row_count == old(self).row_count + 1,
            final(self).null_count == old(self).null_count + if value@ is Null { 1int } else { 0int },
            value@ is Null ==> bound_view(final(self).min) == bound_view(old(self).min) && bound_view(final(self).max)
                == bound_view(old(self).max),
            !(value@ is Null) ==> bound_view(final(self).min) == match bound_view(old(self).min) {
                None => Some(value@),
                Some(m) => if zone_lt(value@, m) { Some(value@) } else { Some(m) },
            },
            !(value@ is Null) ==> bound_view(final(self).max) == match bound_view(old(self).max) {
                None => Some(value@),
                Some(m) => if zone_lt(m, value@) { Some(value@) } else { Some(m) },
            },
    {
        self.row_count = self.row_count + 1;
        if value.is_null() {
            self.null_count = self.null_count + 1;
            return;
        }
        self.merge_bound_values(Some(value), Some(value));
    }

    /// Widen the bounds by another block's bounds: its minimum where smaller,
    /// its maximum where larger (counts are left as they are).
    pub fn merge_bound_values(&mut self, other_min: Option<&Value>, other_max: Option<&Value>)
        ensures
            final(self).row_count == old(self).row_count,
            final(self).null_count == old(self).null_count,
            bound_view(final(self).min) == match (opt_view(other_min), bound_view(old(self).min)) {
                (None, m) => m,
                (Some(o), None) => Some(o),
                (Some(o), Some(m)) => if zone_lt(o, m) { Some(o) } else { Some(m) },
            },
            bound_view(final(self).max) == match (opt_view(other_max), bound_view(old(self).max)) {
                (None, m) => m,
                (Some(o), None) => Some(o),
                (Some(o), Some(m)) => if zone_lt(m, o) { Some(o) } else { Some(m) },
            },
    {
        if let Some(v) = other_min {
            let update = match &self.min {
                None => true,
                Some(current) => value_lt(v, current),
            };
            if update {
                self.min = Some(v.duplicate());
            }
        }
        if let Some(v) = other_max {
            let update = match &self.max {
                None => true,
                Some(current) => gt(v, current),
            };
            if update {
                self.max = Some(v.duplicate());
            }
        }
    }
}

} // verus!
