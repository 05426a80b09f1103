//! Why skipping blocks by their zone bounds is safe: the bounds that the
//! inserted values build cover every value of a kind the order compares,
//! so a predicate found impossible against them matches no row.
use vstd::prelude::*;
use crate::value::ValueView;
use crate::art_index::lex_lt;
use crate::zone_summary::{summary_match_spec, text_bytes, zone_le, zone_lt, PredicateOp, SummaryMatch, HistogramBucket, bucket_in_range, hist_le, rows_in_range};

verus! {

/// The bounds a block's column has after the values were inserted in order,
/// as `ZoneBounds::update_incremental` keeps them: minimum, maximum, nulls,
/// rows.
pub open spec fn bounds_of(vs: Seq<ValueView>) -> (Option<ValueView>, Option<ValueView>, nat, nat)
    decreases vs.len(),
{
    if vs.len() == 0 {
        (None, None, 0, 0)
    } else {
        let (lo, hi, nulls, rows) = bounds_of(vs.drop_last());
        let v = vs.last();
        if v is Null {
            (lo, hi, nulls + 1, rows + 1)
        } else {
            (
                match lo {
                    None => Some(v),
                    Some(m) => if zone_lt(v, m) { Some(v) } else { Some(m) },
                },
                match hi {
                    None => Some(v),
                    Some(m) => if zone_lt(m, v) { Some(v) } else { Some(m) },
                },
                nulls,
                rows + 1,
            )
        }
    }
}

/// Does a row holding `v` match the predicate `op` with constant `c`, the
/// comparisons taken in zone order (which compares only 64-bit integers,
/// texts and timestamps, each with its own kind)?
pub open spec fn row_matches(op: PredicateOp, c: ValueView, v: ValueView) -> bool {
    match op {
        PredicateOp::Eq => v == c,
        PredicateOp::NotEq => !(v is Null) && v != c,
        PredicateOp::Lt => zone_lt(v, c),
        PredicateOp::LtEq => zone_le(v, c),
        PredicateOp::Gt => zone_lt(c, v),
        PredicateOp::GtEq => zone_le(c, v),
        PredicateOp::IsNull => v is Null,
        PredicateOp::IsNotNull => !(v is Null),
    }
}

/// Are the two values of one kind that zone order compares?
pub open spec fn same_kind(a: ValueView, b: ValueView) -> bool {
    ||| (a is Int8 && b is Int8)
    ||| (a is String && b is String)
    ||| (a is Timestamp && b is Timestamp)
}

/// Byte order is transitive.
proof fn lemma_lex_trans(a: Seq<u8>, b: Seq<u8>, c: Seq<u8>)
    requires
        lex_lt(a, b),
        lex_lt(b, c),
    ensures
        lex_lt(a, c),
{
    let i = choose|i: int|
        #![trigger a.subrange(0, i), b.subrange(0, i)]
        0 <= i <= a.len() && i <= b.len() && a.subrange(0, i) == b.subrange(0, i) && ((i == a.len() && i < b.len()) || (i
            < a.len() && i < b.len() && a[i] < b[i]));
    let j = choose|j: int|
        #![trigger b.subrange(0, j), c.subrange(0, j)]
        0 <= j <= b.len() && j <= c.len() && b.subrange(0, j) == c.subrange(0, j) && ((j == b.len() && j < c.len()) || (j
            < b.len() && j < c.len() && b[j] < c[j]));
    if i < j {
        assert(c.subrange(0, i) =~= b.subrange(0, j).subrange(0, i));
        assert(b.subrange(0, i) =~= b.subrange(0, j).subrange(0, i));
        if i < a.len() {
            assert(b[i] == b.subrange(0, j)[i]);
            assert(c[i] == c.subrange(0, j)[i]);
        }
        assert(a.subrange(0, i) == c.subrange(0, i));
    } else if i > j {
        assert(a.subrange(0, j) =~= a.subrange(0, i).subrange(0, j));
        assert(b.subrange(0, j) =~= b.subrange(0, i).subrange(0, j));
        assert(a[j] == a.subrange(0, i)[j]);
        assert(b[j] == b.subrange(0, i)[j]);
        assert(a.subrange(0, j) == c.subrange(0, j));
    } else {
        assert(a.subrange(0, i) == c.subrange(0, i));
    }
}

/// Byte order is total: of two different strings one comes first.
proof fn lemma_lex_total(a: Seq<u8>, b: Seq<u8>)
    requires
        a != b,
    ensures
        lex_lt(a, b) || lex_lt(b, a),
    decreases a.len(),
{
    if a.len() == 0 {
        assert(a.subrange(0, 0) =~= b.subrange(0, 0));
        if b.len() == 0 {
            assert(a =~= b);
        }
    } else if b.len() == 0 {
        assert(a.subrange(0, 0) =~= b.subrange(0, 0));
    } else if a[0] != b[0] {
        assert(a.subrange(0, 0) =~= b.subrange(0, 0));
    } else {
        let a1 = a.drop_first();
        let b1 = b.drop_first();
        assert(a1 != b1) by {
            if a1 == b1 {
                assert(a =~= seq![a[0]] + a1);
                assert(b =~= seq![b[0]] + b1);
            }
        }
        lemma_lex_total(a1, b1);
        if lex_lt(a1, b1) {
            lemma_lex_cons(a, b);
        } else {
            lemma_lex_cons(b, a);
        }
    }
}

/// Strings with the same first byte compare as their rests do.
proof fn lemma_lex_cons(a: Seq<u8>, b: Seq<u8>)
    requires
        a.len() > 0,
        b.len() > 0,
        a[0] == b[0],
        lex_lt(a.drop_first(), b.drop_first()),
    ensures
        lex_lt(a, b),
{
    let a1 = a.drop_first();
    let b1 = b.drop_first();
    let i = choose|i: int|
        #![trigger a1.subrange(0, i), b1.subrange(0, i)]
        0 <= i <= a1.len() && i <= b1.len() && a1.subrange(0, i) == b1.subrange(0, i) && ((i == a1.len() && i < b1.len())
            || (i < a1.len() && i < b1.len() && a1[i] < b1[i]));
    assert(a.subrange(0, i + 1) =~= seq![a[0]] + a1.subrange(0, i));
    assert(b.subrange(0, i + 1) =~= seq![b[0]] + b1.subrange(0, i));
    if i < a1.len() {
        assert(a[i + 1] == a1[i]);
        assert(b[i + 1] == b1[i]);
    }
}

/// No string comes before itself.
proof fn lemma_lex_irreflexive(a: Seq<u8>)
    ensures
        !lex_lt(a, a),
{
}

/// In zone order, `lo <= v` and `v < c` give `lo < c` (and the like for
/// the other mixes of strict and non-strict comparisons).
proof fn lemma_zone_chain(a: ValueView, b: ValueView, c: ValueView)
    ensures
        zone_le(a, b) && zone_lt(b, c) ==> zone_lt(a, c),
        zone_lt(a, b) && zone_le(b, c) ==> zone_lt(a, c),
        zone_le(a, b) && zone_le(b, c) ==> zone_le(a, c),
        zone_lt(a, b) ==> zone_le(a, b) && same_kind(a, b),
        zone_le(a, b) ==> same_kind(a, b),
        same_kind(a, b) ==> zone_le(a, b) || zone_lt(b, a),
        !zone_lt(a, a),
{
    if let (ValueView::String(x), ValueView::String(y)) = (a, b) {
        let (p, q) = (text_bytes(x), text_bytes(y));
        lemma_lex_irreflexive(p);
        if lex_lt(p, q) && lex_lt(q, p) {
            lemma_lex_trans(p, q, p);
        }
    }
    if let (ValueView::String(x), ValueView::String(y), ValueView::String(z)) = (a, b, c) {
        let (p, q, r) = (text_bytes(x), text_bytes(y), text_bytes(z));
        lemma_lex_irreflexive(p);
        if zone_le(a, b) && zone_lt(b, c) {
            if p != q {
                lemma_lex_total(p, q);
                lemma_lex_trans(p, q, r);
            }
        }
        if zone_lt(a, b) && zone_le(b, c) {
            if q != r {
                lemma_lex_total(q, r);
                lemma_lex_trans(p, q, r);
            }
        }
        if zone_le(a, b) && zone_le(b, c) {
            if lex_lt(r, p) {
                if p != q {
                    lemma_lex_total(p, q);
                    lemma_lex_trans(r, p, q);
                }
            }
        }
        if zone_lt(a, b) {
            if lex_lt(q, p) {
                lemma_lex_trans(p, q, p);
            }
        }
        if !zone_le(a, b) {
            assert(lex_lt(q, p));
        }
    }
}

/// The bounds cover the values: every non-null value of the kind of a bound
/// lies between them, the nulls are counted, and there are bounds once a
/// non-null value came.
proof fn lemma_bounds_cover(vs: Seq<ValueView>)
    ensures
        ({
            let (lo, hi, nulls, rows) = bounds_of(vs);
            &&& rows == vs.len()
            &&& nulls <= rows
            &&& (nulls == 0 ==> forall|i: int| 0 <= i < vs.len() ==> !(#[trigger] vs[i] is Null))
            &&& (nulls == rows ==> forall|i: int| 0 <= i < vs.len() ==> #[trigger] vs[i] is Null)
            &&& (forall|i: int|
                0 <= i < vs.len() && !(#[trigger] vs[i] is Null) ==> lo is Some && hi is Some)
            &&& (forall|i: int|
                0 <= i < vs.len() && !(#[trigger] vs[i] is Null) && lo is Some && same_kind(vs[i], lo->0) ==> zone_le(lo->0, vs[i]))
            &&& (forall|i: int|
                0 <= i < vs.len() && !(#[trigger] vs[i] is Null) && hi is Some && same_kind(vs[i], hi->0) ==> zone_le(vs[i], hi->0))
        }),
    decreases vs.len(),
{
    if vs.len() > 0 {
        let ws = vs.drop_last();
        lemma_bounds_cover(ws);
        let (lo0, hi0, nulls0, rows0) = bounds_of(ws);
        let (lo, hi, nulls, rows) = bounds_of(vs);
        let v = vs.last();
        let n = ws.len() as int;
        assert forall|i: int| 0 <= i < n implies vs[i] == ws[i] by {}
        if !(v is Null) {
            assert forall|i: int|
                0 <= i < vs.len() && !(#[trigger] vs[i] is Null) && lo is Some && same_kind(vs[i], lo->0) implies zone_le(lo->0, vs[i]) by {
                let m = lo->0;
                if i == n {
                    if let Some(m0) = lo0 {
                        lemma_zone_chain(v, m0, v);
                        lemma_zone_chain(m0, v, m0);
                        if !zone_lt(v, m0) {
                            lemma_zone_chain(m0, v, v);
                        }
                    }
                    lemma_zone_chain(v, v, v);
                    if m == v {
                        assert(same_kind(v, v));
                        lemma_zone_chain(v, v, v);
                    }
                } else {
                    assert(vs[i] == ws[i]);
                    let m0 = lo0->0;
                    if zone_lt(v, m0) {
                        lemma_zone_chain(v, m0, vs[i]);
                        lemma_zone_chain(v, m0, m0);
                        lemma_zone_chain(m0, vs[i], m0);
                        if same_kind(vs[i], m0) {
                        } else {
                            lemma_zone_chain(v, m0, v);
                            assert(same_kind(v, m0));
                        }
                    }
                }
            }
            assert forall|i: int|
                0 <= i < vs.len() && !(#[trigger] vs[i] is Null) && hi is Some && same_kind(vs[i], hi->0) implies zone_le(vs[i], hi->0) by {
                let m = hi->0;
                if i == n {
                    if let Some(m0) = hi0 {
                        lemma_zone_chain(m0, v, m0);
                        if !zone_lt(m0, v) {
                            lemma_zone_chain(v, m0, v);
                        }
                    }
                    lemma_zone_chain(v, v, v);
                } else {
                    assert(vs[i] == ws[i]);
                    let m0 = hi0->0;
                    if zone_lt(m0, v) {
                        lemma_zone_chain(vs[i], m0, v);
                        lemma_zone_chain(m0, v, m0);
                        lemma_zone_chain(m0, vs[i], m0);
                        if !same_kind(vs[i], m0) {
                            assert(same_kind(m0, v));
                        }
                    }
                }
            }
        } else {
            assert forall|i: int|
                0 <= i < vs.len() && !(#[trigger] vs[i] is Null) && lo is Some && same_kind(vs[i], lo->0) implies zone_le(lo->0, vs[i]) by {
                assert(vs[i] == ws[i]);
            }
            assert forall|i: int|
                0 <= i < vs.len() && !(#[trigger] vs[i] is Null) && hi is Some && same_kind(vs[i], hi->0) implies zone_le(vs[i], hi->0) by {
                assert(vs[i] == ws[i]);
            }
        }
        assert forall|i: int| 0 <= i < vs.len() && !(#[trigger] vs[i] is Null) implies lo is Some && hi is Some by {
            if i < n {
                assert(vs[i] == ws[i]);
            }
        }
        if nulls == 0 {
            assert forall|i: int| 0 <= i < vs.len() implies !(#[trigger] vs[i] is Null) by {
                if i < n {
                    assert(vs[i] == ws[i]);
                }
            }
        }
        if nulls == rows {
            assert forall|i: int| 0 <= i < vs.len() implies #[trigger] vs[i] is Null by {
                if i < n {
                    assert(vs[i] == ws[i]);
                }
            }
        }
    }
}

/// A block that the zone bounds rule out holds no matching row: when a
/// predicate is impossible against the bounds the inserted values built, no
/// inserted value matches it.
pub proof fn law_skip_is_sound(vs: Seq<ValueView>, op: PredicateOp, c: ValueView)
    requires
        vs.len() <= u64::MAX,
    ensures
        ({
            let (lo, hi, nulls, rows) = bounds_of(vs);
            summary_match_spec(op, c, lo, hi, nulls as u64, rows as u64) == SummaryMatch::Impossible ==> forall|i: int|
                0 <= i < vs.len() ==> !row_matches(op, c, #[trigger] vs[i])
        }),
{
    lemma_bounds_cover(vs);
    let (lo, hi, nulls, rows) = bounds_of(vs);
    if summary_match_spec(op, c, lo, hi, nulls as u64, rows as u64) == SummaryMatch::Impossible {
        assert forall|i: int| 0 <= i < vs.len() implies !row_matches(op, c, #[trigger] vs[i]) by {
            let v = vs[i];
            if !(v is Null) {
                let l = lo->0;
                let h = hi->0;
                lemma_zone_chain(v, l, c);
                lemma_zone_chain(l, v, c);
                lemma_zone_chain(c, l, v);
                lemma_zone_chain(l, c, v);
                lemma_zone_chain(v, h, c);
                lemma_zone_chain(h, v, c);
                lemma_zone_chain(c, h, v);
                lemma_zone_chain(c, v, h);
                lemma_zone_chain(h, c, v);
                lemma_zone_chain(v, c, h);
                lemma_zone_chain(l, v, l);
                lemma_zone_chain(v, l, v);
                lemma_zone_chain(h, v, h);
                lemma_zone_chain(v, h, v);
                lemma_zone_chain(c, v, c);
                lemma_zone_chain(v, c, v);
                lemma_zone_chain(c, l, c);
                lemma_zone_chain(c, h, c);
                lemma_zone_chain(l, c, l);
                lemma_zone_chain(h, c, h);
            }
        }
    }
}


/// A block summary never promises too much: in a block whose non-null
/// values are all of the constant's kind, `Full` means every row matches
/// the predicate (a NULL matches only `IS NULL`).
pub proof fn law_full_is_sound(vs: Seq<ValueView>, op: PredicateOp, c: ValueView)
    requires
        vs.len() <= u64::MAX,
        forall|i: int| 0 <= i < vs.len() && !(#[trigger] vs[i] is Null) ==> same_kind(vs[i], c),
    ensures
        ({
            let (lo, hi, nulls, rows) = bounds_of(vs);
            summary_match_spec(op, c, lo, hi, nulls as u64, rows as u64) == SummaryMatch::Full ==> forall|i: int|
                0 <= i < vs.len() ==> row_matches(op, c, #[trigger] vs[i])
        }),
{
    lemma_bounds_cover(vs);
    let (lo, hi, nulls, rows) = bounds_of(vs);
    if summary_match_spec(op, c, lo, hi, nulls as u64, rows as u64) == SummaryMatch::Full {
        assert forall|i: int| 0 <= i < vs.len() implies row_matches(op, c, #[trigger] vs[i]) by {
            let v = vs[i];
            if !(v is Null) {
                assert(same_kind(v, c));
                if lo is Some {
                    let l = lo->0;
                    lemma_zone_chain(l, v, c);
                    lemma_zone_chain(c, l, v);
                    lemma_zone_chain(v, c, l);
                    lemma_zone_chain(c, v, l);
                    lemma_zone_chain(l, c, v);
                    lemma_zone_chain(v, l, c);
                }
                if hi is Some {
                    let h = hi->0;
                    lemma_zone_chain(v, h, c);
                    lemma_zone_chain(h, v, c);
                    lemma_zone_chain(c, h, v);
                    lemma_zone_chain(c, v, h);
                    lemma_zone_chain(h, c, v);
                    lemma_zone_chain(v, c, h);
                }
            }
        }
    }
}


/// Histogram order is transitive.
proof fn lemma_hist_le_trans(a: ValueView, b: ValueView, c: ValueView)
    requires
        hist_le(a, b),
        hist_le(b, c),
    ensures
        hist_le(a, c),
{
    if let (ValueView::String(x), ValueView::String(y), ValueView::String(z)) = (a, b, c) {
        let (p, q, r) = (text_bytes(x), text_bytes(y), text_bytes(z));
        if lex_lt(r, p) {
            if q == p {
                assert(lex_lt(r, q));
            } else {
                lemma_lex_total(p, q);
                lemma_lex_trans(r, p, q);
            }
        }
    }
}

/// With both bounds given, a bucket counts only when it lies wholly inside
/// them: its lower bound is at least `l` and its upper bound at most `u`. So
/// a bucket wholly below `l` counts nothing, and (for buckets whose lower
/// bound is at most their upper bound) bounding from above as well never
/// counts more rows than bounding from below alone.
pub proof fn law_bounded_range_within_lower(bs: Seq<HistogramBucket>, l: ValueView, u: ValueView, n: int)
    requires
        0 <= n <= bs.len(),
        forall|i: int| 0 <= i < bs.len() ==> hist_le((#[trigger] bs[i]).lower_bound@, bs[i].upper_bound@),
    ensures
        forall|i: int| 0 <= i < bs.len() && #[trigger] bucket_in_range(bs[i], Some(l), Some(u)) ==> hist_le(l, bs[i].lower_bound@)
            && hist_le(bs[i].upper_bound@, u),
        forall|i: int| 0 <= i < bs.len() && !hist_le(l, (#[trigger] bs[i]).upper_bound@) ==> !bucket_in_range(bs[i], Some(l), Some(u)),
        rows_in_range(bs, n, Some(l), Some(u)) <= rows_in_range(bs, n, Some(l), None),
    decreases n,
{
    assert forall|i: int| 0 <= i < bs.len() && !hist_le(l, (#[trigger] bs[i]).upper_bound@) implies !bucket_in_range(bs[i], Some(l), Some(u)) by {
        if bucket_in_range(bs[i], Some(l), Some(u)) {
            lemma_hist_le_trans(l, bs[i].lower_bound@, bs[i].upper_bound@);
        }
    }
    if n > 0 {
        law_bounded_range_within_lower(bs, l, u, n - 1);
        let b = bs[n - 1];
        if bucket_in_range(b, Some(l), Some(u)) {
            lemma_hist_le_trans(l, b.lower_bound@, b.upper_bound@);
            assert(bucket_in_range(b, Some(l), None));
        }
    }
}

} // verus!
