//! Properties of the adaptive radix tree index that span several operations.
//!
//! Each operation of `AdaptiveRadixTree` states its effect on the tree's
//! contents, a map from keys to row ids. The lemmas here combine those
//! statements: what a read gives back after a write or a removal, what a
//! unique index accepts, how the key count moves, and that a listing in key
//! order is fixed by the contents alone.
use vstd::prelude::*;
use crate::art_index::{ArtIndexType, map_get, insert_accepts, lex_lt, sorted_listing};
use crate::art_node::RowId;

verus! {

/// Reading a key back after an accepted insert gives the value written, and
/// every other key reads as it did before.
pub proof fn law_get_after_insert(m: Map<Seq<u8>, RowId>, k: Seq<u8>, v: RowId, other: Seq<u8>)
    ensures
        map_get(m.insert(k, v), k) == Some(v),
        other != k ==> map_get(m.insert(k, v), other) == map_get(m, other),
{
}

/// After a removal the key reads as absent, and every other key reads as it
/// did before.
pub proof fn law_get_after_remove(m: Map<Seq<u8>, RowId>, k: Seq<u8>, other: Seq<u8>)
    ensures
        map_get(m.remove(k), k) is None,
        other != k ==> map_get(m.remove(k), other) == map_get(m, other),
{
}

/// Removing a key that an insert has just added to an index without it gives
/// back the contents from before the insert.
pub proof fn law_remove_undoes_insert(m: Map<Seq<u8>, RowId>, k: Seq<u8>, v: RowId)
    requires
        !m.dom().contains(k),
    ensures
        m.insert(k, v).remove(k) == m,
{
    assert(m.insert(k, v).remove(k) =~= m);
}

/// Inserting a key that is already present with the value it already has
/// leaves the contents as they are.
pub proof fn law_insert_same_value(m: Map<Seq<u8>, RowId>, k: Seq<u8>)
    requires
        m.dom().contains(k),
    ensures
        m.insert(k, m[k]) == m,
{
    assert(m.insert(k, m[k]) =~= m);
}

/// A primary-key or unique index accepts an insert only of a key it does not
/// hold: no value it stores is ever overwritten, and a second insert of the
/// same key is refused.
pub proof fn law_unique_keeps_values(t: ArtIndexType, m: Map<Seq<u8>, RowId>, k: Seq<u8>, v: RowId, other: Seq<u8>)
    requires
        t.is_unique_spec(),
        insert_accepts(t, m, k),
    ensures
        !m.dom().contains(k),
        m.dom().contains(other) ==> map_get(m.insert(k, v), other) == map_get(m, other),
        !insert_accepts(t, m.insert(k, v), k),
{
}

/// A foreign-key or manual index accepts every insert; a key already present
/// gets the new value.
pub proof fn law_non_unique_accepts(t: ArtIndexType, m: Map<Seq<u8>, RowId>, k: Seq<u8>, v: RowId)
    requires
        t is ForeignKey || t is Manual,
    ensures
        insert_accepts(t, m, k),
        map_get(m.insert(k, v), k) == Some(v),
{
}

/// The key count after an accepted insert grows by one for a new key and
/// stays for a key already present; after a removal it falls by one for a
/// key that was present and stays otherwise.
pub proof fn law_len_after_update(m: Map<Seq<u8>, RowId>, k: Seq<u8>, v: RowId)
    requires
        m.dom().finite(),
    ensures
        m.insert(k, v).len() == m.len() + if m.dom().contains(k) { 0int } else { 1int },
        m.remove(k).len() == m.len() - if m.dom().contains(k) { 1int } else { 0int },
{
    if m.dom().contains(k) {
        assert(m.insert(k, v).dom() =~= m.dom());
        assert(m.remove(k).dom() =~= m.dom().remove(k));
    } else {
        assert(m.insert(k, v).dom() =~= m.dom().insert(k));
        assert(m.remove(k).dom() =~= m.dom());
    }
}

/// No key comes before itself.
pub proof fn lemma_lex_irreflexive(a: Seq<u8>)
    ensures
        !lex_lt(a, a),
{
}

/// Key order is transitive.
pub proof fn lemma_lex_transitive(a: Seq<u8>, b: Seq<u8>, c: Seq<u8>)
    requires
        lex_lt(a, b),
        lex_lt(b, c),
    ensures
        lex_lt(a, c),
{
    let i = choose|i: int|
        #![trigger a.subrange(0, i), b.subrange(0, i)]
        0 <= i <= a.len() && i <= b.len() && a.subrange(0, i) == b.subrange(0, i) && ((i == a.len() && i < b.len()) || (i
            < a.len() && i < b.len() && a[i] < b[i]));
    let j = choose|j: int|
        #![trigger b.subrange(0, j), c.subrange(0, j)]
        0 <= j <= b.len() && j <= c.len() && b.subrange(0, j) == c.subrange(0, j) && ((j == b.len() && j < c.len()) || (j
            < b.len() && j < c.len() && b[j] < c[j]));
    if i <= j {
        assert(a.subrange(0, i) =~= c.subrange(0, i)) by {
            assert forall|z: int| 0 <= z < i implies a.subrange(0, i)[z] == c.subrange(0, i)[z] by {
                assert(a.subrange(0, i)[z] == b.subrange(0, i)[z]);
                assert(b.subrange(0, j)[z] == c.subrange(0, j)[z]);
            }
        }
        if i < j {
            assert(b.subrange(0, j)[i] == c.subrange(0, j)[i]);
        }
    } else {
        assert(a.subrange(0, j) =~= c.subrange(0, j)) by {
            assert forall|z: int| 0 <= z < j implies a.subrange(0, j)[z] == c.subrange(0, j)[z] by {
                assert(a.subrange(0, i)[z] == b.subrange(0, i)[z]);
                assert(b.subrange(0, j)[z] == c.subrange(0, j)[z]);
            }
        }
        assert(a.subrange(0, i)[j] == b.subrange(0, i)[j]);
    }
}

/// Key order is total: two keys are equal or one comes before the other.
pub proof fn lemma_lex_total(a: Seq<u8>, b: Seq<u8>)
    ensures
        a == b || lex_lt(a, b) || lex_lt(b, a),
    decreases a.len(),
{
    if a.len() == 0 || b.len() == 0 {
        if a.len() == 0 && b.len() == 0 {
            assert(a =~= b);
        } else if a.len() == 0 {
            assert(a.subrange(0, 0) =~= b.subrange(0, 0));
        } else {
            assert(a.subrange(0, 0) =~= b.subrange(0, 0));
        }
    } else if a[0] != b[0] {
        assert(a.subrange(0, 0) =~= b.subrange(0, 0));
    } else {
        let a1 = a.drop_first();
        let b1 = b.drop_first();
        lemma_lex_total(a1, b1);
        if a1 == b1 {
            assert(a =~= b) by {
                assert forall|i: int| 0 <= i < a.len() implies a[i] == b[i] by {
                    if i > 0 {
                        assert(a[i] == a1[i - 1]);
                        assert(b[i] == b1[i - 1]);
                    }
                }
            }
        } else if lex_lt(a1, b1) {
            let j = choose|j: int|
                #![trigger a1.subrange(0, j), b1.subrange(0, j)]
                0 <= j <= a1.len() && j <= b1.len() && a1.subrange(0, j) == b1.subrange(0, j) && ((j == a1.len() && j < b1.len()) || (j
                    < a1.len() && j < b1.len() && a1[j] < b1[j]));
            assert(a.subrange(0, j + 1) =~= b.subrange(0, j + 1)) by {
                assert forall|i: int| 0 <= i < j + 1 implies #[trigger] a.subrange(0, j + 1)[i] == b.subrange(0, j + 1)[i] by {
                    if i > 0 {
                        assert(a1.subrange(0, j)[i - 1] == b1.subrange(0, j)[i - 1]);
                    }
                }
            }
        } else {
            let j = choose|j: int|
                #![trigger b1.subrange(0, j), a1.subrange(0, j)]
                0 <= j <= b1.len() && j <= a1.len() && b1.subrange(0, j) == a1.subrange(0, j) && ((j == b1.len() && j < a1.len()) || (j
                    < b1.len() && j < a1.len() && b1[j] < a1[j]));
            assert(b.subrange(0, j + 1) =~= a.subrange(0, j + 1)) by {
                assert forall|i: int| 0 <= i < j + 1 implies #[trigger] b.subrange(0, j + 1)[i] == a.subrange(0, j + 1)[i] by {
                    if i > 0 {
                        assert(b1.subrange(0, j)[i - 1] == a1.subrange(0, j)[i - 1]);
                    }
                }
            }
        }
    }
}

/// Key order is asymmetric.
pub proof fn lemma_lex_asymmetric(a: Seq<u8>, b: Seq<u8>)
    requires
        lex_lt(a, b),
    ensures
        !lex_lt(b, a),
{
    if lex_lt(b, a) {
        lemma_lex_transitive(a, b, a);
        lemma_lex_irreflexive(a);
    }
}

/// A listing in key order has exactly as many entries as the contents have keys.
pub proof fn law_listing_len(es: Seq<(Seq<u8>, RowId)>, m: Map<Seq<u8>, RowId>)
    requires
        sorted_listing(es, m),
        m.dom().finite(),
    ensures
        es.len() == m.len(),
    decreases es.len(),
{
    if es.len() == 0 {
        if m.dom().len() > 0 {
            let k = m.dom().choose();
            assert(m.dom().contains(k));
        }
    } else {
        let k = es[0].0;
        let rest = es.drop_first();
        let m2 = m.remove(k);
        assert(m.dom().contains(k));
        assert forall|i: int| 0 <= i < rest.len() implies m2.dom().contains((#[trigger] rest[i]).0) && m2[rest[i].0] == rest[i].1 by {
            assert(rest[i] == es[i + 1]);
            assert(lex_lt(es[0].0, es[i + 1].0));
            lemma_lex_irreflexive(k);
        }
        assert forall|k2: Seq<u8>| #[trigger] m2.dom().contains(k2) implies exists|i: int| 0 <= i < rest.len() && rest[i].0 == k2 by {
            assert(m.dom().contains(k2));
            let i = choose|i: int| 0 <= i < es.len() && es[i].0 == k2;
            assert(i != 0);
            assert(rest[i - 1] == es[i]);
        }
        assert forall|i: int, j: int| 0 <= i < j < rest.len() implies lex_lt((#[trigger] rest[i]).0, (#[trigger] rest[j]).0) by {
            assert(rest[i] == es[i + 1]);
            assert(rest[j] == es[j + 1]);
        }
        law_listing_len(rest, m2);
    }
}

/// A listing in key order is fixed by the contents: two listings of the same
/// contents are equal.
pub proof fn law_listing_unique(es1: Seq<(Seq<u8>, RowId)>, es2: Seq<(Seq<u8>, RowId)>, m: Map<Seq<u8>, RowId>)
    requires
        sorted_listing(es1, m),
        sorted_listing(es2, m),
    ensures
        es1 == es2,
    decreases es1.len(),
{
    if es1.len() == 0 {
        if es2.len() > 0 {
            assert(m.dom().contains(es2[0].0));
        }
        assert(es1 =~= es2);
    } else {
        assert(m.dom().contains(es1[0].0));
        assert(es2.len() > 0);
        let k1 = es1[0].0;
        let k2 = es2[0].0;
        if k1 != k2 {
            let j = choose|j: int| 0 <= j < es2.len() && es2[j].0 == k1;
            let i = choose|i: int| 0 <= i < es1.len() && es1[i].0 == k2;
            assert(m.dom().contains(k2));
            assert(j != 0);
            assert(i != 0);
            assert(lex_lt(es2[0].0, es2[j].0));
            assert(lex_lt(es1[0].0, es1[i].0));
            lemma_lex_asymmetric(k1, k2);
        }
        let m2 = m.remove(k1);
        let r1 = es1.drop_first();
        let r2 = es2.drop_first();
        assert forall|i: int| 0 <= i < r1.len() implies m2.dom().contains((#[trigger] r1[i]).0) && m2[r1[i].0] == r1[i].1 by {
            assert(r1[i] == es1[i + 1]);
            assert(lex_lt(es1[0].0, es1[i + 1].0));
            lemma_lex_irreflexive(k1);
        }
        assert forall|k: Seq<u8>| #[trigger] m2.dom().contains(k) implies exists|i: int| 0 <= i < r1.len() && r1[i].0 == k by {
            let i = choose|i: int| 0 <= i < es1.len() && es1[i].0 == k;
            assert(r1[i - 1] == es1[i]);
        }
        assert forall|i: int, j: int| 0 <= i < j < r1.len() implies lex_lt((#[trigger] r1[i]).0, (#[trigger] r1[j]).0) by {
            assert(r1[i] == es1[i + 1]);
            assert(r1[j] == es1[j + 1]);
        }
        assert forall|i: int| 0 <= i < r2.len() implies m2.dom().contains((#[trigger] r2[i]).0) && m2[r2[i].0] == r2[i].1 by {
            assert(r2[i] == es2[i + 1]);
            assert(lex_lt(es2[0].0, es2[i + 1].0));
            lemma_lex_irreflexive(k1);
        }
        assert forall|k: Seq<u8>| #[trigger] m2.dom().contains(k) implies exists|i: int| 0 <= i < r2.len() && r2[i].0 == k by {
            let i = choose|i: int| 0 <= i < es2.len() && es2[i].0 == k;
            assert(r2[i - 1] == es2[i]);
        }
        assert forall|i: int, j: int| 0 <= i < j < r2.len() implies lex_lt((#[trigger] r2[i]).0, (#[trigger] r2[j]).0) by {
            assert(r2[i] == es2[i + 1]);
            assert(r2[j] == es2[j + 1]);
        }
        law_listing_unique(r1, r2, m2);
        assert(es1[0] == es2[0]);
        assert(es1 =~= es2) by {
            assert forall|i: int| 0 <= i < es1.len() implies es1[i] == es2[i] by {
                if i > 0 {
                    assert(r1[i - 1] == es1[i]);
                    assert(r2[i - 1] == es2[i]);
                }
            }
        }
    }
}

} // verus!
