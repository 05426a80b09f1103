//! Bloom filters for fast negative lookups during scans.
//!
//! A filter is an array of bits; a value sets (and is checked against) the
//! bits at `num_hashes` positions derived from two hashes of the value
//! (Kirsch–Mitzenmacher: position `k` is `(h1 + k * h2) mod num_bits`).
//! A value that was inserted is always reported as possibly present.
//!
//! How many bits and hashes a filter gets for an expected number of elements
//! and a false-positive rate is a floating-point computation; a filter here
//! is made from that shape.
use vstd::prelude::*;
use std::hash::{Hash, Hasher};
use std::collections::hash_map::DefaultHasher;
use crate::value::Value;
use crate::zone_summary::feed;
use crate::text::str_eq;

verus! {

/// Bit `i` of an array of words (bit `i % 64` of word `i / 64`).
pub open spec fn word_bit(words: Seq<u64>, i: int) -> bool {
    (words[i / 64] >> ((i % 64) as u64)) & 1 == 1
}

/// The bit position probed by hash number `k` for the hash pair `(h1, h2)`
/// in a filter of `n` bits.
pub open spec fn probe(h1: u64, h2: u64, k: int, n: int) -> int {
    (h1.wrapping_add((k as u64).wrapping_mul(h2)) as usize) as int % n
}

/// Is every probed bit of the hash pair set?
pub open spec fn all_probes_set(words: Seq<u64>, n: int, hashes: int, h1: u64, h2: u64) -> bool {
    forall|k: int| 0 <= k < hashes ==> #[trigger] word_bit(words, probe(h1, h2, k, n))
}

/// The words after setting the probed bits of a hash pair: a bit is set when
/// it was, or when some hash probes it.
pub open spec fn sets_probes(old_words: Seq<u64>, new_words: Seq<u64>, n: int, hashes: int, h1: u64, h2: u64) -> bool {
    &&& new_words.len() == old_words.len()
    &&& forall|i: int|
        0 <= i < 64 * old_words.len() ==> (#[trigger] word_bit(new_words, i) <==> (word_bit(old_words, i) || exists|k: int|
            0 <= k < hashes && probe(h1, h2, k, n) == i))
}

/// Number of set bits among the first `n` positions.
pub open spec fn ones(words: Seq<u64>, n: nat) -> nat
    decreases n,
{
    if n == 0 {
        0
    } else {
        ones(words, (n - 1) as nat) + if word_bit(words, n - 1) { 1nat } else { 0nat }
    }
}

proof fn lemma_bit_or(x: u64, m: u64, c: u64)
    requires
        c < 64,
    ensures
        ((x | m) >> c) & 1 == 1 <==> ((x >> c) & 1 == 1 || (m >> c) & 1 == 1),
{
    assert(((x | m) >> c) & 1 == 1 <==> ((x >> c) & 1 == 1 || (m >> c) & 1 == 1)) by (bit_vector)
        requires
            c < 64,
    ;
}

proof fn lemma_bit_single(b: u64, c: u64)
    requires
        b < 64,
        c < 64,
    ensures
        ((1u64 << b) >> c) & 1 == 1 <==> b == c,
{
    assert(((1u64 << b) >> c) & 1 == 1 <==> b == c) by (bit_vector)
        requires
            b < 64,
            c < 64,
    ;
}

proof fn lemma_bit_zero(c: u64)
    requires
        c < 64,
    ensures
        (0u64 >> c) & 1 != 1,
{
    assert((0u64 >> c) & 1 != 1) by (bit_vector)
        requires
            c < 64,
    ;
}

/// Counters of a filter's use.
#[derive(Debug, Clone, Copy)]
pub struct BloomFilterStats {
    /// Lookups counted (`might_contain`)
    pub lookups: u64,
    /// Lookups recorded as true positives
    pub true_positives: u64,
    /// Lookups that found an unset bit
    pub true_negatives: u64,
    /// Lookups recorded as false positives
    pub false_positives: u64,
    /// Values inserted
    pub insertions: u64,
    /// Set bits at the last insertion or merge (the fill ratio is this over the bit count)
    pub set_bits: u64,
}

impl BloomFilterStats {
    /// All counters zero.
    pub fn zero() -> (s: Self)
        ensures
            s.lookups == 0,
            s.true_positives == 0,
            s.true_negatives == 0,
            s.false_positives == 0,
            s.insertions == 0,
            s.set_bits == 0,
    {
        BloomFilterStats { lookups: 0, true_positives: 0, true_negatives: 0, false_positives: 0, insertions: 0, set_bits: 0 }
    }
}

impl Default for BloomFilterStats {
    fn default() -> (s: Self)
        ensures
            s.lookups == 0,
            s.true_positives == 0,
            s.true_negatives == 0,
            s.false_positives == 0,
            s.insertions == 0,
            s.set_bits == 0,
    {
        BloomFilterStats::zero()
    }
}

/// A Bloom filter: `num_bits` bits in 64-bit words, `num_hashes` probes per value.
#[derive(Debug, Clone)]
pub struct BloomFilter {
    bits: Vec<u64>,
    num_bits: usize,
    num_hashes: usize,
    stats: BloomFilterStats,
}

/// `std`'s default hasher fed the value, then finished, and fed that hash and
/// the value again: the hash pair of a value.
fn hash_pair<T: Hash + ?Sized>(value: &T) -> (u64, u64) {
    let mut hasher1 = DefaultHasher::new();
    feed(value, &mut hasher1);
    let h1 = hasher1.finish();
    let mut hasher2 = DefaultHasher::new();
    feed(&h1, &mut hasher2);
    feed(value, &mut hasher2);
    let h2 = hasher2.finish();
    (h1, h2)
}

/// The hash pair of a column value.
fn value_hash_pair(value: &Value) -> (u64, u64) {
    match value {
        Value::Null => hash_pair(&0u8),
        Value::Boolean(b) => hash_pair(b),
        Value::Int2(i) => hash_pair(i),
        Value::Int4(i) => hash_pair(i),
        Value::Int8(i) => hash_pair(i),
        Value::String(s) => hash_pair(s.as_str()),
        Value::Bytes(b) => hash_pair(b.as_slice()),
        Value::Timestamp(t) => {
            let nanos: i64 = match t.checked_mul(1000) {
                Some(n) => n,
                None => 0,
            };
            hash_pair(&nanos)
        },
        Value::DictRef { dict_id } => hash_pair(dict_id),
        Value::CasRef { hash } => hash_pair(hash.as_slice()),
        Value::ColumnarRef => hash_pair(&0u8),
    }
}

impl BloomFilter {
    /// The words of the bit array.
    pub closed spec fn words(&self) -> Seq<u64> {
        self.bits@
    }

    /// Number of bits.
    pub closed spec fn bit_count(&self) -> usize {
        self.num_bits
    }

    /// Number of probes per value.
    pub closed spec fn hash_count(&self) -> usize {
        self.num_hashes
    }

    /// The counters.
    pub closed spec fn counters(&self) -> BloomFilterStats {
        self.stats
    }

    /// Bit `i` of the filter.
    pub open spec fn bit(&self, i: int) -> bool {
        word_bit(self.words(), i)
    }

    /// Might a value with this hash pair be in the filter?
    pub open spec fn holds(&self, h1: u64, h2: u64) -> bool {
        all_probes_set(self.words(), self.bit_count() as int, self.hash_count() as int, h1, h2)
    }

    /// The words cover the bits, and the bit count is positive.
    pub closed spec fn wf(&self) -> bool {
        &&& 0 < self.num_bits
        &&& self.num_bits + 63 <= usize::MAX
        &&& self.bits@.len() == (self.num_bits + 63) / 64
    }

    /// Every probed position lies in the words.
    proof fn lemma_probe_in_range(&self, h1: u64, h2: u64, k: int)
        requires
            self.wf(),
        ensures
            0 <= probe(h1, h2, k, self.num_bits as int) < self.num_bits,
            probe(h1, h2, k, self.num_bits as int) / 64 < self.bits@.len(),
            self.num_bits <= 64 * self.bits@.len(),
    {
        let n = self.num_bits as int;
        let w = self.bits@.len() as int;
        assert(64 * w <= n + 63 && n <= 64 * w) by (nonlinear_arith)
            requires
                w == (n + 63) / 64,
                n > 0,
        ;
    }

    /// An empty filter of the given shape.
    pub fn with_shape(num_bits: usize, num_hashes: usize) -> (f: Self)
        requires
            0 < num_bits,
            num_bits + 63 <= usize::MAX,
        ensures
            f.wf(),
            f.bit_count() == num_bits,
            f.hash_count() == num_hashes,
            f.words().len() == (num_bits + 63) / 64,
            forall|i: int| 0 <= i < 64 * f.words().len() ==> !#[trigger] f.bit(i),
            f.counters() == BloomFilterStats::zero_spec(),
    {
        let num_words = (num_bits + 63) / 64;
        let mut bits: Vec<u64> = Vec::new();
        while bits.len() < num_words
            invariant
                bits@.len() <= num_words,
                forall|j: int| 0 <= j < bits@.len() ==> bits@[j] == 0,
            decreases num_words - bits@.len(),
        {
            bits.push(0);
        }
        let f = BloomFilter { bits, num_bits, num_hashes, stats: BloomFilterStats::zero() };
        proof {
            assert forall|i: int| 0 <= i < 64 * f.words().len() implies !#[trigger] f.bit(i) by {
                assert(0 <= i / 64 < f.words().len()) by (nonlinear_arith)
                    requires
                        0 <= i < 64 * f.words().len(),
                ;
                lemma_bit_zero((i % 64) as u64);
            }
        }
        f
    }

    /// The bit position of probe `k`.
    fn get_bit_index(&self, h1: u64, h2: u64, k: usize) -> (r: usize)
        requires
            self.wf(),
        ensures
            r == probe(h1, h2, k as int, self.num_bits as int),
            r < self.num_bits,
    {
        let combined = h1.wrapping_add((k as u64).wrapping_mul(h2));
        (combined as usize) % self.num_bits
    }

    /// Set bit `index`.
    fn set_bit(&mut self, index: usize)
        requires
            old(self).wf(),
            index < old(self).num_bits,
        ensures
            final(self).wf(),
            final(self).num_bits == old(self).num_bits,
            final(self).num_hashes == old(self).num_hashes,
            final(self).stats == old(self).stats,
            final(self).bits@.len() == old(self).bits@.len(),
            forall|i: int| 0 <= i < 64 * old(self).bits@.len() ==> (#[trigger] word_bit(final(self).bits@, i) <==> (word_bit(old(self).bits@, i) || i == index)),
    {
        proof {
            self.lemma_probe_in_range(0, 0, 0);
        }
        let word_index = index / 64;
        let bit_index = index % 64;
        let ghost w0 = self.bits@;
        let w = self.bits[word_index] | (1u64 << bit_index);
        self.bits.set(word_index, w);
        proof {
            assert forall|i: int| 0 <= i < 64 * w0.len() implies (#[trigger] word_bit(self.bits@, i) <==> (word_bit(w0, i) || i == index)) by {
                let c = (i % 64) as u64;
                if i / 64 == word_index as int {
                    lemma_bit_or(w0[word_index as int], 1u64 << bit_index, c);
                    lemma_bit_single(bit_index as u64, c);
                } else {
                    assert(0 <= i / 64 < w0.len()) by (nonlinear_arith)
                        requires
                            0 <= i < 64 * w0.len(),
                    ;
                }
            }
        }
    }

    /// Is bit `index` set?
    fn get_bit(&self, index: usize) -> (r: bool)
        requires
            self.wf(),
            index < self.num_bits,
        ensures
            r == word_bit(self.bits@, index as int),
    {
        proof {
            self.lemma_probe_in_range(0, 0, 0);
        }
        let word_index = index / 64;
        let bit_index = index % 64;
        (self.bits[word_index] >> bit_index) & 1 == 1
    }

    /// Number of set bits over all words.
    fn count_set_bits(&self) -> (r: u64)
        requires
            self.wf(),
        ensures
            r == ones(self.bits@, 64 * self.bits@.len()),
    {
        let ghost w = self.bits@;
        let total: usize = self.bits.len() * 64;
        proof {
            assert(64 * w.len() <= self.num_bits + 63) by (nonlinear_arith)
                requires
                    w.len() == (self.num_bits + 63) / 64,
            ;
        }
        let mut count: u64 = 0;
        let mut i: usize = 0;
        while i < total
            invariant
                self.wf(),
                w == self.bits@,
                total == 64 * w.len(),
                i <= total,
                count == ones(w, i as nat),
                count <= i,
            decreases total - i,
        {
            let word_index = i / 64;
            let bit_index = i % 64;
            proof {
                assert(word_index < w.len()) by (nonlinear_arith)
                    requires
                        i < 64 * w.len(),
                        word_index == i / 64,
                ;
            }
            if (self.bits[word_index] >> bit_index) & 1 == 1 {
                count = count + 1;
            }
            i = i + 1;
        }
        count
    }

    /// Record the set-bit count in the counters.
    fn update_fill_ratio(&mut self)
        requires
            old(self).wf(),
        ensures
            final(self).wf(),
            final(self).bits == old(self).bits,
            final(self).num_bits == old(self).num_bits,
            final(self).num_hashes == old(self).num_hashes,
            final(self).stats == (BloomFilterStats { set_bits: ones(old(self).bits@, 64 * old(self).bits@.len()) as u64, ..old(self).stats }),
    {
        let n = self.count_set_bits();
        self.stats.set_bits = n;
    }

    /// Insert a value by its hash pair: every probed bit gets set.
    pub fn insert_hashes(&mut self, h1: u64, h2: u64)
        requires
            old(self).wf(),
            old(self).counters().insertions < u64::MAX,
        ensures
            final(self).wf(),
            final(self).bit_count() == old(self).bit_count(),
            final(self).hash_count() == old(self).hash_count(),
            sets_probes(old(self).words(), final(self).words(), old(self).bit_count() as int, old(self).hash_count() as int, h1, h2),
            final(self).counters() == (BloomFilterStats {
                insertions: (old(self).counters().insertions + 1) as u64,
                set_bits: ones(final(self).words(), 64 * final(self).words().len()) as u64,
                ..old(self).counters()
            }),
    {
        let ghost w0 = self.bits@;
        let n = self.num_hashes;
        let mut k: usize = 0;
        while k < n
            invariant
                self.wf(),
                n == self.num_hashes,
                self.num_bits == old(self).num_bits,
                self.num_hashes == old(self).num_hashes,
                self.stats == old(self).stats,
                w0 == old(self).bits@,
                k <= n,
                self.bits@.len() == w0.len(),
                forall|i: int| 0 <= i < 64 * w0.len() ==> (#[trigger] word_bit(self.bits@, i) <==> (word_bit(w0, i) || exists|q: int|
                    0 <= q < k && probe(h1, h2, q, self.num_bits as int) == i)),
            decreases n - k,
        {
            let idx = self.get_bit_index(h1, h2, k);
            let ghost before = self.bits@;
            self.set_bit(idx);
            proof {
                assert forall|i: int| 0 <= i < 64 * w0.len() implies (#[trigger] word_bit(self.bits@, i) <==> (word_bit(w0, i) || exists|q: int|
                    0 <= q < k + 1 && probe(h1, h2, q, self.num_bits as int) == i)) by {
                    if word_bit(self.bits@, i) && !word_bit(w0, i) {
                        if i == idx as int {
                            assert(probe(h1, h2, k as int, self.num_bits as int) == i);
                        } else {
                            assert(word_bit(before, i));
                            let q = choose|q: int| 0 <= q < k && probe(h1, h2, q, self.num_bits as int) == i;
                            assert(0 <= q < k + 1);
                        }
                    }
                    if exists|q: int| 0 <= q < k + 1 && probe(h1, h2, q, self.num_bits as int) == i {
                        let q = choose|q: int| 0 <= q < k + 1 && probe(h1, h2, q, self.num_bits as int) == i;
                        if q < k {
                            assert(word_bit(before, i));
                        }
                    }
                }
            }
            k = k + 1;
        }
        self.stats.insertions = self.stats.insertions + 1;
        self.update_fill_ratio();
    }

    /// Might a value with this hash pair be in the filter? No counter changes.
    pub fn check_hashes(&self, h1: u64, h2: u64) -> (r: bool)
        requires
            self.wf(),
        ensures
            r == self.holds(h1, h2),
    {
        let n = self.num_hashes;
        let mut k: usize = 0;
        while k < n
            invariant
                self.wf(),
                n == self.num_hashes,
                k <= n,
                forall|q: int| 0 <= q < k ==> #[trigger] word_bit(self.bits@, probe(h1, h2, q, self.num_bits as int)),
            decreases n - k,
        {
            let idx = self.get_bit_index(h1, h2, k);
            if !self.get_bit(idx) {
                return false;
            }
            k = k + 1;
        }
        true
    }

    /// Might a value with this hash pair be in the filter? Counts the lookup,
    /// and a true negative when a probed bit is unset.
    pub fn might_contain_hashes(&mut self, h1: u64, h2: u64) -> (r: bool)
        requires
            old(self).wf(),
            old(self).counters().lookups < u64::MAX,
            old(self).counters().true_negatives < u64::MAX,
        ensures
            final(self).wf(),
            r == old(self).holds(h1, h2),
            final(self).words() == old(self).words(),
            final(self).bit_count() == old(self).bit_count(),
            final(self).hash_count() == old(self).hash_count(),
            final(self).counters() == (BloomFilterStats {
                lookups: (old(self).counters().lookups + 1) as u64,
                true_negatives: if r { old(self).counters().true_negatives } else { (old(self).counters().true_negatives + 1) as u64 },
                ..old(self).counters()
            }),
    {
        self.stats.lookups = self.stats.lookups + 1;
        let r = self.check_hashes(h1, h2);
        if !r {
            self.stats.true_negatives = self.stats.true_negatives + 1;
        }
        r
    }

    /// Insert any hashable value, by its hash pair.
    pub fn insert<T: Hash + ?Sized>(&mut self, value: &T)
        requires
            old(self).wf(),
            old(self).counters().insertions < u64::MAX,
        ensures
            final(self).wf(),
            final(self).bit_count() == old(self).bit_count(),
            final(self).hash_count() == old(self).hash_count(),
            exists|h1: u64, h2: u64| sets_probes(old(self).words(), final(self).words(), old(self).bit_count() as int, old(self).hash_count() as int, h1, h2),
            final(self).counters() == (BloomFilterStats {
                insertions: (old(self).counters().insertions + 1) as u64,
                set_bits: ones(final(self).words(), 64 * final(self).words().len()) as u64,
                ..old(self).counters()
            }),
    {
        let (h1, h2) = hash_pair(value);
        self.insert_hashes(h1, h2);
    }

    /// Might the hashable value be in the filter? Counts the lookup.
    pub fn might_contain<T: Hash + ?Sized>(&mut self, value: &T) -> (r: bool)
        requires
            old(self).wf(),
            old(self).counters().lookups < u64::MAX,
            old(self).counters().true_negatives < u64::MAX,
        ensures
            final(self).wf(),
            exists|h1: u64, h2: u64| r == old(self).holds(h1, h2),
            final(self).words() == old(self).words(),
            final(self).bit_count() == old(self).bit_count(),
            final(self).hash_count() == old(self).hash_count(),
            final(self).counters() == (BloomFilterStats {
                lookups: (old(self).counters().lookups + 1) as u64,
                true_negatives: if r { old(self).counters().true_negatives } else { (old(self).counters().true_negatives + 1) as u64 },
                ..old(self).counters()
            }),
    {
        let (h1, h2) = hash_pair(value);
        self.might_contain_hashes(h1, h2)
    }

    /// Might the hashable value be in the filter? No counter changes.
    pub fn check<T: Hash + ?Sized>(&self, value: &T) -> (r: bool)
        requires
            self.wf(),
        ensures
            exists|h1: u64, h2: u64| r == self.holds(h1, h2),
    {
        let (h1, h2) = hash_pair(value);
        self.check_hashes(h1, h2)
    }

    /// Insert a value, by the hash pair of its key.
    pub fn insert_value(&mut self, value: &Value)
        requires
            old(self).wf(),
            old(self).counters().insertions < u64::MAX,
        ensures
            final(self).wf(),
            final(self).bit_count() == old(self).bit_count(),
            final(self).hash_count() == old(self).hash_count(),
            exists|h1: u64, h2: u64| sets_probes(old(self).words(), final(self).words(), old(self).bit_count() as int, old(self).hash_count() as int, h1, h2),
            final(self).counters() == (BloomFilterStats {
                insertions: (old(self).counters().insertions + 1) as u64,
                set_bits: ones(final(self).words(), 64 * final(self).words().len()) as u64,
                ..old(self).counters()
            }),
    {
        let (h1, h2) = value_hash_pair(value);
        self.insert_hashes(h1, h2);
    }

    /// Insert a row id.
    pub fn insert_row(&mut self, row_id: u64)
        requires
            old(self).wf(),
            old(self).counters().insertions < u64::MAX,
        ensures
            final(self).wf(),
            final(self).bit_count() == old(self).bit_count(),
            final(self).hash_count() == old(self).hash_count(),
            exists|h1: u64, h2: u64| sets_probes(old(self).words(), final(self).words(), old(self).bit_count() as int, old(self).hash_count() as int, h1, h2),
            final(self).counters() == (BloomFilterStats {
                insertions: (old(self).counters().insertions + 1) as u64,
                set_bits: ones(final(self).words(), 64 * final(self).words().len()) as u64,
                ..old(self).counters()
            }),
    {
        let (h1, h2) = hash_pair(&row_id);
        self.insert_hashes(h1, h2);
    }

    /// Might the value be in the filter? Counts the lookup.
    pub fn might_contain_value(&mut self, value: &Value) -> (r: bool)
        requires
            old(self).wf(),
            old(self).counters().lookups < u64::MAX,
            old(self).counters().true_negatives < u64::MAX,
        ensures
            final(self).wf(),
            exists|h1: u64, h2: u64| r == old(self).holds(h1, h2),
            final(self).words() == old(self).words(),
            final(self).bit_count() == old(self).bit_count(),
            final(self).hash_count() == old(self).hash_count(),
            final(self).counters() == (BloomFilterStats {
                lookups: (old(self).counters().lookups + 1) as u64,
                true_negatives: if r { old(self).counters().true_negatives } else { (old(self).counters().true_negatives + 1) as u64 },
                ..old(self).counters()
            }),
    {
        let (h1, h2) = value_hash_pair(value);
        self.might_contain_hashes(h1, h2)
    }

    /// Might the row id be in the filter? Counts the lookup.
    pub fn might_contain_row(&mut self, row_id: u64) -> (r: bool)
        requires
            old(self).wf(),
            old(self).counters().lookups < u64::MAX,
            old(self).counters().true_negatives < u64::MAX,
        ensures
            final(self).wf(),
            exists|h1: u64, h2: u64| r == old(self).holds(h1, h2),
            final(self).words() == old(self).words(),
            final(self).bit_count() == old(self).bit_count(),
            final(self).hash_count() == old(self).hash_count(),
            final(self).counters() == (BloomFilterStats {
                lookups: (old(self).counters().lookups + 1) as u64,
                true_negatives: if r { old(self).counters().true_negatives } else { (old(self).counters().true_negatives + 1) as u64 },
                ..old(self).counters()
            }),
    {
        let (h1, h2) = hash_pair(&row_id);
        self.might_contain_hashes(h1, h2)
    }

    /// Might the value be in the filter? No counter changes.
    pub fn check_value(&self, value: &Value) -> (r: bool)
        requires
            self.wf(),
        ensures
            exists|h1: u64, h2: u64| r == self.holds(h1, h2),
    {
        let (h1, h2) = value_hash_pair(value);
        self.check_hashes(h1, h2)
    }

    /// Count a true positive.
    pub fn record_true_positive(&mut self)
        requires
            old(self).counters().true_positives < u64::MAX,
        ensures
            final(self).words() == old(self).words(),
            final(self).bit_count() == old(self).bit_count(),
            final(self).hash_count() == old(self).hash_count(),
            final(self).wf() == old(self).wf(),
            final(self).counters() == (BloomFilterStats { true_positives: (old(self).counters().true_positives + 1) as u64, ..old(self).counters() }),
    {
        self.stats.true_positives = self.stats.true_positives + 1;
    }

    /// Count a false positive.
    pub fn record_false_positive(&mut self)
        requires
            old(self).counters().false_positives < u64::MAX,
        ensures
            final(self).words() == old(self).words(),
            final(self).bit_count() == old(self).bit_count(),
            final(self).hash_count() == old(self).hash_count(),
            final(self).wf() == old(self).wf(),
            final(self).counters() == (BloomFilterStats { false_positives: (old(self).counters().false_positives + 1) as u64, ..old(self).counters() }),
    {
        self.stats.false_positives = self.stats.false_positives + 1;
    }

    /// The counters.
    pub fn stats(&self) -> (s: &BloomFilterStats)
        ensures
            *s == self.counters(),
    {
        &self.stats
    }

    /// Number of bits.
    pub fn num_bits(&self) -> (r: usize)
        ensures
            r == self.bit_count(),
    {
        self.num_bits
    }

    /// Number of probes per value.
    pub fn num_hashes(&self) -> (r: usize)
        ensures
            r == self.hash_count(),
    {
        self.num_hashes
    }

    /// Bytes held by the bit array.
    pub fn memory_usage(&self) -> (r: usize)
        requires
            self.wf(),
        ensures
            r == 8 * self.words().len(),
    {
        proof {
            assert(8 * self.bits@.len() <= self.num_bits + 63) by (nonlinear_arith)
                requires
                    self.bits@.len() == (self.num_bits + 63) / 64,
            ;
        }
        self.bits.len() * 8
    }

    /// Unset every bit and zero the counters.
    pub fn clear(&mut self)
        requires
            old(self).wf(),
        ensures
            final(self).wf(),
            final(self).bit_count() == old(self).bit_count(),
            final(self).hash_count() == old(self).hash_count(),
            final(self).words().len() == old(self).words().len(),
            forall|i: int| 0 <= i < 64 * final(self).words().len() ==> !#[trigger] final(self).bit(i),
            final(self).counters() == BloomFilterStats::zero_spec(),
    {
        let n = self.bits.len();
        let mut j: usize = 0;
        while j < n
            invariant
                self.wf(),
                self.num_bits == old(self).num_bits,
                self.num_hashes == old(self).num_hashes,
                n == self.bits@.len(),
                j <= n,
                forall|q: int| 0 <= q < j ==> self.bits@[q] == 0,
            decreases n - j,
        {
            self.bits.set(j, 0);
            j = j + 1;
        }
        self.stats = BloomFilterStats::zero();
        proof {
            assert forall|i: int| 0 <= i < 64 * self.bits@.len() implies !#[trigger] self.bit(i) by {
                assert(0 <= i / 64 < self.bits@.len()) by (nonlinear_arith)
                    requires
                        0 <= i < 64 * self.bits@.len(),
                ;
                lemma_bit_zero((i % 64) as u64);
            }
        }
    }

    /// OR a mask into word `word_idx`; an index past the words is ignored.
    pub fn apply_delta_bits(&mut self, word_idx: usize, bits_mask: u64)
        requires
            old(self).wf(),
        ensures
            final(self).wf(),
            final(self).bit_count() == old(self).bit_count(),
            final(self).hash_count() == old(self).hash_count(),
            final(self).counters() == old(self).counters(),
            final(self).words() == if word_idx < old(self).words().len() {
                old(self).words().update(word_idx as int, old(self).words()[word_idx as int] | bits_mask)
            } else {
                old(self).words()
            },
    {
        if word_idx < self.bits.len() {
            let w = self.bits[word_idx] | bits_mask;
            self.bits.set(word_idx, w);
        }
    }

    /// Number of words.
    pub fn bits_len(&self) -> (r: usize)
        ensures
            r == self.words().len(),
    {
        self.bits.len()
    }

    /// Add to the insertion counter.
    pub fn increment_items_added(&mut self, count: usize)
        requires
            old(self).counters().insertions + count <= u64::MAX,
        ensures
            final(self).words() == old(self).words(),
            final(self).bit_count() == old(self).bit_count(),
            final(self).hash_count() == old(self).hash_count(),
            final(self).wf() == old(self).wf(),
            final(self).counters() == (BloomFilterStats { insertions: (old(self).counters().insertions + count) as u64, ..old(self).counters() }),
    {
        self.stats.insertions = self.stats.insertions + count as u64;
    }

    /// Union with a filter of the same shape; a filter of another shape is refused.
    pub fn merge(&mut self, other: &BloomFilter) -> (r: Result<(), String>)
        requires
            old(self).wf(),
            other.wf(),
            old(self).counters().insertions + other.counters().insertions <= u64::MAX,
        ensures
            final(self).wf(),
            final(self).bit_count() == old(self).bit_count(),
            final(self).hash_count() == old(self).hash_count(),
            (r is Ok) <==> (old(self).bit_count() == other.bit_count() && old(self).hash_count() == other.hash_count()),
            r matches Err(e) ==> e@ == "Cannot merge bloom filters with different configurations"@ && *final(self) == *old(self),
            r is Ok ==> {
                &&& final(self).words().len() == old(self).words().len()
                &&& forall|i: int| 0 <= i < 64 * old(self).words().len() ==> (#[trigger] final(self).bit(i) <==> (old(self).bit(i) || other.bit(i)))
                &&& final(self).counters() == (BloomFilterStats {
                    insertions: (old(self).counters().insertions + other.counters().insertions) as u64,
                    set_bits: ones(final(self).words(), 64 * final(self).words().len()) as u64,
                    ..old(self).counters()
                })
            },
    {
        if self.num_bits != other.num_bits || self.num_hashes != other.num_hashes {
            return Err(String::from_str("Cannot merge bloom filters with different configurations"));
        }
        let ghost w0 = self.bits@;
        let n = other.bits.len();
        let mut j: usize = 0;
        while j < n
            invariant
                self.wf(),
                other.wf(),
                self.num_bits == other.num_bits,
                self.num_bits == old(self).num_bits,
                self.num_hashes == old(self).num_hashes,
                self.stats == old(self).stats,
                w0 == old(self).bits@,
                n == other.bits@.len(),
                n == w0.len(),
                self.bits@.len() == w0.len(),
                j <= n,
                forall|q: int| 0 <= q < j ==> self.bits@[q] == (w0[q] | other.bits@[q]),
                forall|q: int| j <= q < n ==> self.bits@[q] == w0[q],
            decreases n - j,
        {
            let w = self.bits[j] | other.bits[j];
            self.bits.set(j, w);
            j = j + 1;
        }
        let ghost merged = self.bits@;
        proof {
            assert forall|i: int| 0 <= i < 64 * w0.len() implies (#[trigger] word_bit(merged, i) <==> (word_bit(w0, i) || other.bit(i))) by {
                assert(0 <= i / 64 < w0.len()) by (nonlinear_arith)
                    requires
                        0 <= i < 64 * w0.len(),
                ;
                lemma_bit_or(w0[i / 64], other.bits@[i / 64], (i % 64) as u64);
            }
        }
        self.stats.insertions = self.stats.insertions + other.stats.insertions;
        self.update_fill_ratio();
        proof {
            assert(self.bits@ == merged);
            assert forall|i: int| 0 <= i < 64 * w0.len() implies (#[trigger] self.bit(i) <==> (word_bit(w0, i) || other.bit(i))) by {
                assert(word_bit(merged, i) == self.bit(i));
            }
        }
        Ok(())
    }
}

impl BloomFilterStats {
    /// All counters zero.
    pub open spec fn zero_spec() -> BloomFilterStats {
        BloomFilterStats { lookups: 0, true_positives: 0, true_negatives: 0, false_positives: 0, insertions: 0, set_bits: 0 }
    }
}

/// A value whose hash pair was inserted is reported as possibly present:
/// a Bloom filter has no false negatives.
pub proof fn law_no_false_negatives(before: Seq<u64>, after: Seq<u64>, n: int, hashes: int, h1: u64, h2: u64)
    requires
        0 < n <= 64 * before.len(),
        sets_probes(before, after, n, hashes, h1, h2),
    ensures
        all_probes_set(after, n, hashes, h1, h2),
{
    assert forall|k: int| 0 <= k < hashes implies #[trigger] word_bit(after, probe(h1, h2, k, n)) by {
        let p = probe(h1, h2, k, n);
        assert(0 <= p < n);
    }
}

/// Inserting never unsets a bit, so a value found before an insertion is
/// still found after it.
pub proof fn law_insert_keeps_found(before: Seq<u64>, after: Seq<u64>, n: int, hashes: int, h1: u64, h2: u64, g1: u64, g2: u64)
    requires
        0 < n <= 64 * before.len(),
        sets_probes(before, after, n, hashes, h1, h2),
        all_probes_set(before, n, hashes, g1, g2),
    ensures
        all_probes_set(after, n, hashes, g1, g2),
{
    assert forall|k: int| 0 <= k < hashes implies #[trigger] word_bit(after, probe(g1, g2, k, n)) by {
        let p = probe(g1, g2, k, n);
        assert(0 <= p < n);
        assert(word_bit(before, p));
    }
}

/// A value found in either filter of a merge is found in the union.
pub proof fn law_merge_keeps_found(a: Seq<u64>, b: Seq<u64>, u: Seq<u64>, n: int, hashes: int, h1: u64, h2: u64)
    requires
        0 < n <= 64 * a.len(),
        forall|i: int| 0 <= i < 64 * a.len() ==> (#[trigger] word_bit(u, i) <==> (word_bit(a, i) || word_bit(b, i))),
        all_probes_set(a, n, hashes, h1, h2) || all_probes_set(b, n, hashes, h1, h2),
    ensures
        all_probes_set(u, n, hashes, h1, h2),
{
    assert forall|k: int| 0 <= k < hashes implies #[trigger] word_bit(u, probe(h1, h2, k, n)) by {
        let p = probe(h1, h2, k, n);
        assert(0 <= p < n);
        if all_probes_set(a, n, hashes, h1, h2) {
            assert(word_bit(a, p));
        } else {
            assert(word_bit(b, p));
        }
    }
}

/// A Bloom filter over the values of one column.
#[derive(Debug, Clone)]
pub struct ColumnBloomFilter {
    /// Column name
    pub column_name: String,
    /// The filter
    pub filter: BloomFilter,
    /// Rows added
    pub row_count: u64,
}

/// `j` is the first filter of the column named `name`.
pub open spec fn named_at(cfs: Seq<ColumnBloomFilter>, name: Seq<char>, j: int) -> bool {
    &&& 0 <= j < cfs.len()
    &&& cfs[j].column_name@ == name
    &&& forall|q: int| 0 <= q < j ==> (#[trigger] cfs[q]).column_name@ != name
}

/// No filter is for the column named `name`.
pub open spec fn unnamed(cfs: Seq<ColumnBloomFilter>, name: Seq<char>) -> bool {
    forall|q: int| 0 <= q < cfs.len() ==> (#[trigger] cfs[q]).column_name@ != name
}

/// How many of the named values go to filter `j`.
pub open spec fn hits(values: Seq<(String, Value)>, cfs: Seq<ColumnBloomFilter>, j: int) -> nat
    decreases values.len(),
{
    if values.len() == 0 {
        0
    } else {
        hits(values.drop_last(), cfs, j) + if named_at(cfs, values.last().0@, j) { 1nat } else { 0nat }
    }
}

proof fn lemma_hits_bound(values: Seq<(String, Value)>, cfs: Seq<ColumnBloomFilter>, j: int)
    ensures
        hits(values, cfs, j) <= values.len(),
    decreases values.len(),
{
    if values.len() > 0 {
        lemma_hits_bound(values.drop_last(), cfs, j);
    }
}

/// Every bit set in `a` is set in `b` (over the words of `a`).
pub open spec fn bits_grow(a: Seq<u64>, b: Seq<u64>) -> bool {
    &&& b.len() == a.len()
    &&& forall|i: int| 0 <= i < 64 * a.len() && #[trigger] word_bit(a, i) ==> word_bit(b, i)
}

/// The filter took one more value: same shape, bits set by some hash pair.
pub open spec fn took_value(a: BloomFilter, b: BloomFilter) -> bool {
    &&& b.wf()
    &&& b.bit_count() == a.bit_count()
    &&& b.hash_count() == a.hash_count()
    &&& exists|h1: u64, h2: u64| sets_probes(a.words(), b.words(), a.bit_count() as int, a.hash_count() as int, h1, h2)
    &&& b.counters().insertions == a.counters().insertions + 1
}

proof fn lemma_took_value_grows(a: BloomFilter, b: BloomFilter)
    requires
        took_value(a, b),
    ensures
        bits_grow(a.words(), b.words()),
{
    let (h1, h2) = choose|h1: u64, h2: u64| sets_probes(a.words(), b.words(), a.bit_count() as int, a.hash_count() as int, h1, h2);
    assert forall|i: int| 0 <= i < 64 * a.words().len() && #[trigger] word_bit(a.words(), i) implies word_bit(b.words(), i) by {}
}

impl ColumnBloomFilter {
    /// A filter for the column, with no rows.
    pub fn new(column_name: String, filter: BloomFilter) -> (c: Self)
        ensures
            c.column_name == column_name,
            c.filter == filter,
            c.row_count == 0,
    {
        ColumnBloomFilter { column_name, filter, row_count: 0 }
    }

    /// Add a row's value.
    pub fn add(&mut self, value: &Value)
        requires
            old(self).filter.wf(),
            old(self).filter.counters().insertions < u64::MAX,
            old(self).row_count < u64::MAX,
        ensures
            final(self).column_name == old(self).column_name,
            final(self).row_count == old(self).row_count + 1,
            took_value(old(self).filter, final(self).filter),
            final(self).filter.counters() == (BloomFilterStats {
                insertions: (old(self).filter.counters().insertions + 1) as u64,
                set_bits: ones(final(self).filter.words(), 64 * final(self).filter.words().len()) as u64,
                ..old(self).filter.counters()
            }),
    {
        self.filter.insert_value(value);
        self.row_count = self.row_count + 1;
    }

    /// Might the column hold the value? Counts the lookup.
    pub fn might_contain(&mut self, value: &Value) -> (r: bool)
        requires
            old(self).filter.wf(),
            old(self).filter.counters().lookups < u64::MAX,
            old(self).filter.counters().true_negatives < u64::MAX,
        ensures
            final(self).column_name == old(self).column_name,
            final(self).row_count == old(self).row_count,
            final(self).filter.wf(),
            final(self).filter.words() == old(self).filter.words(),
            final(self).filter.bit_count() == old(self).filter.bit_count(),
            final(self).filter.hash_count() == old(self).filter.hash_count(),
            exists|h1: u64, h2: u64| r == old(self).filter.holds(h1, h2),
            final(self).filter.counters() == (BloomFilterStats {
                lookups: (old(self).filter.counters().lookups + 1) as u64,
                true_negatives: if r { old(self).filter.counters().true_negatives } else { (old(self).filter.counters().true_negatives + 1) as u64 },
                ..old(self).filter.counters()
            }),
    {
        self.filter.might_contain_value(value)
    }

    /// Might the column hold the value? No counter changes.
    pub fn might_contain_check(&self, value: &Value) -> (r: bool)
        requires
            self.filter.wf(),
        ensures
            exists|h1: u64, h2: u64| r == self.filter.holds(h1, h2),
    {
        self.filter.check_value(value)
    }
}

/// The first filter of the column, if any.
fn find_column(cfs: &Vec<ColumnBloomFilter>, name: &str) -> (r: Option<usize>)
    ensures
        match r {
            Some(j) => named_at(cfs@, name@, j as int),
            None => unnamed(cfs@, name@),
        },
{
    let mut j: usize = 0;
    while j < cfs.len()
        invariant
            j <= cfs@.len(),
            forall|q: int| 0 <= q < j ==> (#[trigger] cfs@[q]).column_name@ != name@,
        decreases cfs@.len() - j,
    {
        if str_eq(cfs[j].column_name.as_str(), name) {
            return Some(j);
        }
        j = j + 1;
    }
    None
}

/// Look the value up in the first filter of the column, counting the lookup;
/// a column with no filter might hold anything.
fn lookup_in_columns(cfs: &mut Vec<ColumnBloomFilter>, column_name: &str, value: &Value) -> (r: bool)
    requires
        forall|q: int| 0 <= q < old(cfs)@.len() ==> (#[trigger] old(cfs)@[q]).filter.wf() && old(cfs)@[q].filter.counters().lookups < u64::MAX
            && old(cfs)@[q].filter.counters().true_negatives < u64::MAX,
    ensures
        final(cfs)@.len() == old(cfs)@.len(),
        unnamed(old(cfs)@, column_name@) ==> r && final(cfs)@ == old(cfs)@,
        forall|j: int| #[trigger] named_at(old(cfs)@, column_name@, j) ==> {
            &&& exists|h1: u64, h2: u64| r == old(cfs)@[j].filter.holds(h1, h2)
            &&& final(cfs)@ == old(cfs)@.update(j, final(cfs)@[j])
            &&& final(cfs)@[j].column_name == old(cfs)@[j].column_name
            &&& final(cfs)@[j].row_count == old(cfs)@[j].row_count
            &&& final(cfs)@[j].filter.wf()
            &&& final(cfs)@[j].filter.words() == old(cfs)@[j].filter.words()
            &&& final(cfs)@[j].filter.bit_count() == old(cfs)@[j].filter.bit_count()
            &&& final(cfs)@[j].filter.hash_count() == old(cfs)@[j].filter.hash_count()
            &&& final(cfs)@[j].filter.counters().lookups == old(cfs)@[j].filter.counters().lookups + 1
        },
{
    match find_column(cfs, column_name) {
        None => true,
        Some(j) => {
            let ghost c0 = cfs@;
            let mut cf = cfs.remove(j);
            let r = cf.might_contain(value);
            cfs.insert(j, cf);
            proof {
                assert(cfs@ =~= c0.update(j as int, cfs@[j as int]));
                assert forall|q: int| #[trigger] named_at(c0, column_name@, q) implies q == j as int by {
                    if q < j {
                        assert(c0[q].column_name@ != column_name@);
                    } else if q > j {
                        assert(c0[j as int].column_name@ != column_name@);
                    }
                }
            }
            r
        },
    }
}

/// A Bloom filter of a block: its row ids and per-column values.
#[derive(Debug, Clone)]
pub struct BlockBloomFilter {
    /// Block identifier
    pub block_id: u64,
    /// Row id filter
    pub row_filter: BloomFilter,
    /// Per-column filters
    pub column_filters: Vec<ColumnBloomFilter>,
}

impl BlockBloomFilter {
    /// A block filter with no column filters.
    pub fn new(block_id: u64, row_filter: BloomFilter) -> (b: Self)
        ensures
            b.block_id == block_id,
            b.row_filter == row_filter,
            b.column_filters@.len() == 0,
    {
        BlockBloomFilter { block_id, row_filter, column_filters: Vec::new() }
    }

    /// Add a filter for a column.
    pub fn add_column_filter(&mut self, column_name: String, filter: BloomFilter)
        ensures
            final(self).block_id == old(self).block_id,
            final(self).row_filter == old(self).row_filter,
            final(self).column_filters@ == old(self).column_filters@.push(ColumnBloomFilter { column_name, filter, row_count: 0 }),
    {
        self.column_filters.push(ColumnBloomFilter::new(column_name, filter));
    }

    /// Add a row id.
    pub fn add_row(&mut self, row_id: u64)
        requires
            old(self).row_filter.wf(),
            old(self).row_filter.counters().insertions < u64::MAX,
        ensures
            final(self).block_id == old(self).block_id,
            final(self).column_filters == old(self).column_filters,
            took_value(old(self).row_filter, final(self).row_filter),
    {
        self.row_filter.insert_row(row_id);
    }

    /// Might the block hold the row id? Counts the lookup.
    pub fn might_contain_row(&mut self, row_id: u64) -> (r: bool)
        requires
            old(self).row_filter.wf(),
            old(self).row_filter.counters().lookups < u64::MAX,
            old(self).row_filter.counters().true_negatives < u64::MAX,
        ensures
            final(self).block_id == old(self).block_id,
            final(self).column_filters == old(self).column_filters,
            final(self).row_filter.wf(),
            final(self).row_filter.words() == old(self).row_filter.words(),
            exists|h1: u64, h2: u64| r == old(self).row_filter.holds(h1, h2),
    {
        self.row_filter.might_contain_row(row_id)
    }

    /// Might the column hold the value in this block? A column with no filter
    /// might hold anything.
    pub fn might_contain_in_column(&mut self, column_name: &str, value: &Value) -> (r: bool)
        requires
            forall|q: int| 0 <= q < old(self).column_filters@.len() ==> (#[trigger] old(self).column_filters@[q]).filter.wf()
                && old(self).column_filters@[q].filter.counters().lookups < u64::MAX
                && old(self).column_filters@[q].filter.counters().true_negatives < u64::MAX,
        ensures
            final(self).block_id == old(self).block_id,
            final(self).row_filter == old(self).row_filter,
            unnamed(old(self).column_filters@, column_name@) ==> r,
            forall|j: int| #[trigger] named_at(old(self).column_filters@, column_name@, j) ==> exists|h1: u64, h2: u64|
                r == old(self).column_filters@[j].filter.holds(h1, h2),
    {
        lookup_in_columns(&mut self.column_filters, column_name, value)
    }
}

/// The Bloom filters of a table.
#[derive(Debug, Clone)]
pub struct TableBloomFilters {
    /// Table name
    pub table_name: String,
    /// Per-column filters
    pub column_filters: Vec<ColumnBloomFilter>,
    /// Per-block filters
    pub block_filters: Vec<BlockBloomFilter>,
    /// Filter of all row ids
    pub row_id_filter: BloomFilter,
}

/// Bytes held by the words of the block filters from `j` on.
pub open spec fn block_memory(bs: Seq<BlockBloomFilter>, j: int) -> nat
    decreases bs.len() - j,
{
    if j < 0 || j >= bs.len() {
        0
    } else {
        8 * bs[j].row_filter.words().len() + column_memory(bs[j].column_filters@, 0) + block_memory(bs, j + 1)
    }
}

/// Bytes held by the words of the column filters from `j` on.
pub open spec fn column_memory(cs: Seq<ColumnBloomFilter>, j: int) -> nat
    decreases cs.len() - j,
{
    if j < 0 || j >= cs.len() {
        0
    } else {
        8 * cs[j].filter.words().len() + column_memory(cs, j + 1)
    }
}

/// Sum the memory of column filters `j..` onto `acc`.
fn add_column_memory(cs: &Vec<ColumnBloomFilter>, acc: usize) -> (r: usize)
    requires
        forall|q: int| 0 <= q < cs@.len() ==> (#[trigger] cs@[q]).filter.wf(),
        acc + column_memory(cs@, 0) <= usize::MAX,
    ensures
        r == acc + column_memory(cs@, 0),
{
    let mut total = acc;
    let mut j: usize = cs.len();
    while j > 0
        invariant
            forall|q: int| 0 <= q < cs@.len() ==> (#[trigger] cs@[q]).filter.wf(),
            j <= cs@.len(),
            acc + column_memory(cs@, 0) <= usize::MAX,
            total + column_memory(cs@, 0) == acc + column_memory(cs@, 0) + column_memory(cs@, j as int),
        decreases j,
    {
        proof {
            lemma_column_memory_prefix(cs@, (j - 1) as int);
        }
        j = j - 1;
        let m = cs[j].filter.memory_usage();
        total = total + m;
    }
    total
}

proof fn lemma_column_memory_prefix(cs: Seq<ColumnBloomFilter>, j: int)
    requires
        0 <= j < cs.len(),
    ensures
        column_memory(cs, j) == 8 * cs[j].filter.words().len() + column_memory(cs, j + 1),
        column_memory(cs, 0) >= column_memory(cs, j),
    decreases j,
{
    if j > 0 {
        lemma_column_memory_prefix(cs, j - 1);
    }
}

proof fn lemma_block_memory_step(bs: Seq<BlockBloomFilter>, j: int)
    requires
        0 <= j < bs.len(),
    ensures
        block_memory(bs, j) == 8 * bs[j].row_filter.words().len() + column_memory(bs[j].column_filters@, 0) + block_memory(bs, j + 1),
        block_memory(bs, 0) >= block_memory(bs, j),
    decreases j,
{
    if j > 0 {
        lemma_block_memory_step(bs, j - 1);
    }
}

impl TableBloomFilters {
    /// Filters of a table: only the row id filter.
    pub fn new(table_name: String, row_id_filter: BloomFilter) -> (t: Self)
        ensures
            t.table_name == table_name,
            t.row_id_filter == row_id_filter,
            t.column_filters@.len() == 0,
            t.block_filters@.len() == 0,
    {
        TableBloomFilters { table_name, column_filters: Vec::new(), block_filters: Vec::new(), row_id_filter }
    }

    /// Track a column.
    pub fn add_column(&mut self, column_name: String, filter: BloomFilter)
        ensures
            final(self).table_name == old(self).table_name,
            final(self).row_id_filter == old(self).row_id_filter,
            final(self).block_filters == old(self).block_filters,
            final(self).column_filters@ == old(self).column_filters@.push(ColumnBloomFilter { column_name, filter, row_count: 0 }),
    {
        self.column_filters.push(ColumnBloomFilter::new(column_name, filter));
    }

    /// Index a row: its id, and each named value in the first filter of its column
    /// (a value of a column with no filter is skipped).
    pub fn index_row(&mut self, row_id: u64, values: &[(String, Value)])
        requires
            old(self).row_id_filter.wf(),
            old(self).row_id_filter.counters().insertions < u64::MAX,
            forall|q: int| 0 <= q < old(self).column_filters@.len() ==> (#[trigger] old(self).column_filters@[q]).filter.wf()
                && old(self).column_filters@[q].filter.counters().insertions + values@.len() <= u64::MAX
                && old(self).column_filters@[q].row_count + values@.len() <= u64::MAX,
        ensures
            final(self).table_name == old(self).table_name,
            final(self).block_filters == old(self).block_filters,
            took_value(old(self).row_id_filter, final(self).row_id_filter),
            final(self).column_filters@.len() == old(self).column_filters@.len(),
            forall|j: int| 0 <= j < old(self).column_filters@.len() ==> {
                let a = #[trigger] old(self).column_filters@[j];
                let b = final(self).column_filters@[j];
                &&& b.column_name == a.column_name
                &&& b.row_count == a.row_count + hits(values@, old(self).column_filters@, j)
                &&& b.filter.wf()
                &&& b.filter.bit_count() == a.filter.bit_count()
                &&& b.filter.hash_count() == a.filter.hash_count()
                &&& b.filter.counters().insertions == a.filter.counters().insertions + hits(values@, old(self).column_filters@, j)
                &&& bits_grow(a.filter.words(), b.filter.words())
                &&& hits(values@, old(self).column_filters@, j) == 0 ==> b == a
            },
    {
        self.row_id_filter.insert_row(row_id);
        let ghost c0 = self.column_filters@;
        let ghost r1 = self.row_id_filter;
        let mut i: usize = 0;
        while i < values.len()
            invariant
                self.table_name == old(self).table_name,
                self.block_filters == old(self).block_filters,
                self.row_id_filter == r1,
                c0 == old(self).column_filters@,
                i <= values@.len(),
                self.column_filters@.len() == c0.len(),
                forall|q: int| 0 <= q < c0.len() ==> (#[trigger] c0[q]).filter.wf()
                    && c0[q].filter.counters().insertions + values@.len() <= u64::MAX
                    && c0[q].row_count + values@.len() <= u64::MAX,
                forall|j: int| 0 <= j < c0.len() ==> {
                    let a = #[trigger] c0[j];
                    let b = self.column_filters@[j];
                    &&& b.column_name == a.column_name
                    &&& b.row_count == a.row_count + hits(values@.subrange(0, i as int), c0, j)
                    &&& b.filter.wf()
                    &&& b.filter.bit_count() == a.filter.bit_count()
                    &&& b.filter.hash_count() == a.filter.hash_count()
                    &&& b.filter.counters().insertions == a.filter.counters().insertions + hits(values@.subrange(0, i as int), c0, j)
                    &&& bits_grow(a.filter.words(), b.filter.words())
                    &&& hits(values@.subrange(0, i as int), c0, j) == 0 ==> b == a
                },
            decreases values@.len() - i,
        {
            let ghost cur = self.column_filters@;
            let ghost pre = values@.subrange(0, i as int);
            let ghost nxt = values@.subrange(0, i + 1);
            proof {
                assert(nxt.drop_last() =~= pre);
                assert(nxt.last() == values@[i as int]);
                assert forall|j: int| 0 <= j < c0.len() implies hits(pre, c0, j) <= i by {
                    lemma_hits_bound(pre, c0, j);
                }
            }
            let name = values[i].0.as_str();
            match find_column(&self.column_filters, name) {
                None => {
                    proof {
                        assert forall|j: int| 0 <= j < c0.len() implies !named_at(c0, name@, j) by {
                            assert(cur[j].column_name == c0[j].column_name);
                        }
                        assert forall|j: int| 0 <= j < c0.len() implies hits(nxt, c0, j) == hits(pre, c0, j) by {}
                    }
                },
                Some(j) => {
                    proof {
                        assert(named_at(c0, name@, j as int)) by {
                            assert forall|q: int| 0 <= q < j implies (#[trigger] c0[q]).column_name@ != name@ by {
                                assert(cur[q].column_name == c0[q].column_name);
                            }
                        }
                        assert forall|q: int| 0 <= q < c0.len() && q != j implies !named_at(c0, name@, q) by {
                            if q < j {
                                assert(c0[q].column_name@ != name@);
                            } else {
                                assert(c0[j as int].column_name@ == name@);
                            }
                        }
                        assert(hits(nxt, c0, j as int) == hits(pre, c0, j as int) + 1);
                        assert forall|q: int| 0 <= q < c0.len() && q != j implies hits(nxt, c0, q) == hits(pre, c0, q) by {}
                    }
                    let mut cf = self.column_filters.remove(j);
                    let ghost before = cf;
                    cf.add(&values[i].1);
                    proof {
                        lemma_took_value_grows(before.filter, cf.filter);
                        let a = c0[j as int];
                        assert(bits_grow(a.filter.words(), cf.filter.words())) by {
                            assert forall|p: int| 0 <= p < 64 * a.filter.words().len() && #[trigger] word_bit(a.filter.words(), p) implies word_bit(cf.filter.words(), p) by {
                                assert(word_bit(before.filter.words(), p));
                            }
                        }
                    }
                    self.column_filters.insert(j, cf);
                    proof {
                        assert forall|q: int| 0 <= q < c0.len() && q != j implies self.column_filters@[q] == cur[q] by {
                            if q < j {
                                assert(self.column_filters@[q] == cur[q]);
                            } else {
                                assert(self.column_filters@[q] == cur[q]);
                            }
                        }
                    }
                },
            }
            i = i + 1;
        }
        proof {
            assert(values@.subrange(0, values@.len() as int) =~= values@);
        }
    }

    /// Might the column hold the value? A column with no filter might hold anything.
    pub fn might_contain_value(&mut self, column_name: &str, value: &Value) -> (r: bool)
        requires
            forall|q: int| 0 <= q < old(self).column_filters@.len() ==> (#[trigger] old(self).column_filters@[q]).filter.wf()
                && old(self).column_filters@[q].filter.counters().lookups < u64::MAX
                && old(self).column_filters@[q].filter.counters().true_negatives < u64::MAX,
        ensures
            final(self).table_name == old(self).table_name,
            final(self).row_id_filter == old(self).row_id_filter,
            final(self).block_filters == old(self).block_filters,
            unnamed(old(self).column_filters@, column_name@) ==> r,
            forall|j: int| #[trigger] named_at(old(self).column_filters@, column_name@, j) ==> exists|h1: u64, h2: u64|
                r == old(self).column_filters@[j].filter.holds(h1, h2),
    {
        lookup_in_columns(&mut self.column_filters, column_name, value)
    }

    /// Bytes held by all the filters' words.
    pub fn memory_usage(&self) -> (r: usize)
        requires
            self.row_id_filter.wf(),
            forall|q: int| 0 <= q < self.column_filters@.len() ==> (#[trigger] self.column_filters@[q]).filter.wf(),
            forall|q: int| 0 <= q < self.block_filters@.len() ==> (#[trigger] self.block_filters@[q]).row_filter.wf()
                && forall|c: int| 0 <= c < self.block_filters@[q].column_filters@.len() ==> (#[trigger] self.block_filters@[q].column_filters@[c]).filter.wf(),
            8 * self.row_id_filter.words().len() + column_memory(self.column_filters@, 0) + block_memory(self.block_filters@, 0) <= usize::MAX,
        ensures
            r == 8 * self.row_id_filter.words().len() + column_memory(self.column_filters@, 0) + block_memory(self.block_filters@, 0),
    {
        let mut total = self.row_id_filter.memory_usage();
        total = add_column_memory(&self.column_filters, total);
        let ghost bs = self.block_filters@;
        let ghost base = total as int;
        let mut j: usize = 0;
        while j < self.block_filters.len()
            invariant
                bs == self.block_filters@,
                forall|q: int| 0 <= q < bs.len() ==> (#[trigger] bs[q]).row_filter.wf()
                    && forall|c: int| 0 <= c < bs[q].column_filters@.len() ==> (#[trigger] bs[q].column_filters@[c]).filter.wf(),
                j <= bs.len(),
                base + block_memory(bs, 0) <= usize::MAX,
                total + block_memory(bs, j as int) == base + block_memory(bs, 0),
            decreases bs.len() - j,
        {
            proof {
                lemma_block_memory_step(bs, j as int);
            }
            let m = self.block_filters[j].row_filter.memory_usage();
            total = total + m;
            total = add_column_memory(&self.block_filters[j].column_filters, total);
            j = j + 1;
        }
        total
    }

    /// Index rows of a table: columns not yet tracked get a filter of the given
    /// shape; row `i` of `tuples` is indexed under row id `i`, its values paired
    /// with the column names in order.
    pub fn build_from_tuples(&mut self, tuples: &[Vec<Value>], columns: &[String], num_bits: usize, num_hashes: usize)
        requires
            0 < num_bits,
            num_bits + 63 <= usize::MAX,
            old(self).row_id_filter.wf(),
            old(self).row_id_filter.counters().insertions + tuples@.len() <= u64::MAX,
            forall|q: int| 0 <= q < old(self).column_filters@.len() ==> (#[trigger] old(self).column_filters@[q]).filter.wf(),
            forall|q: int| 0 <= q < old(self).column_filters@.len() ==> (#[trigger] old(self).column_filters@[q]).filter.counters().insertions + tuples@.len() * columns@.len() <= u64::MAX,
            forall|q: int| 0 <= q < old(self).column_filters@.len() ==> (#[trigger] old(self).column_filters@[q]).row_count + tuples@.len() * columns@.len() <= u64::MAX,
            tuples@.len() * columns@.len() <= u64::MAX,
            tuples@.len() <= u64::MAX,
        ensures
            final(self).table_name == old(self).table_name,
            final(self).block_filters == old(self).block_filters,
            final(self).row_id_filter.wf(),
            final(self).row_id_filter.counters().insertions == old(self).row_id_filter.counters().insertions + tuples@.len(),
            bits_grow(old(self).row_id_filter.words(), final(self).row_id_filter.words()),
            final(self).column_filters@.len() >= old(self).column_filters@.len(),
            forall|c: int| 0 <= c < columns@.len() ==> !unnamed(final(self).column_filters@, (#[trigger] columns@[c])@),
            forall|q: int| 0 <= q < old(self).column_filters@.len() ==> (#[trigger] final(self).column_filters@[q]).column_name == old(self).column_filters@[q].column_name,
    {
        let ghost c_init = self.column_filters@;
        let mut c: usize = 0;
        while c < columns.len()
            invariant
                0 < num_bits,
                num_bits + 63 <= usize::MAX,
                self.table_name == old(self).table_name,
                self.block_filters == old(self).block_filters,
                self.row_id_filter == old(self).row_id_filter,
                c <= columns@.len(),
                self.column_filters@.len() >= c_init.len(),
                forall|q: int| 0 <= q < c_init.len() ==> #[trigger] self.column_filters@[q] == c_init[q],
                forall|q: int| c_init.len() <= q < self.column_filters@.len() ==> (#[trigger] self.column_filters@[q]).row_count == 0
                    && self.column_filters@[q].filter.wf() && self.column_filters@[q].filter.counters() == BloomFilterStats::zero_spec(),
                forall|q: int| 0 <= q < c ==> !unnamed(self.column_filters@, (#[trigger] columns@[q])@),
            decreases columns@.len() - c,
        {
            let ghost before = self.column_filters@;
            if find_column(&self.column_filters, columns[c].as_str()).is_none() {
                let f = BloomFilter::with_shape(num_bits, num_hashes);
                self.column_filters.push(ColumnBloomFilter::new(columns[c].clone(), f));
                proof {
                    let n = self.column_filters@.len() - 1;
                    assert(self.column_filters@[n].column_name@ == columns@[c as int]@);
                    assert forall|q: int| 0 <= q < c + 1 implies !unnamed(self.column_filters@, (#[trigger] columns@[q])@) by {
                        if q < c {
                            let w = choose|w: int| 0 <= w < before.len() && (#[trigger] before[w]).column_name@ == columns@[q]@;
                            assert(self.column_filters@[w] == before[w]);
                        } else {
                            assert(self.column_filters@[n].column_name@ == columns@[q]@);
                        }
                    }
                }
            }
            c = c + 1;
        }
        let ghost c_mid = self.column_filters@;
        let ghost r0 = self.row_id_filter;
        let mut row: usize = 0;
        while row < tuples.len()
            invariant
                self.table_name == old(self).table_name,
                self.block_filters == old(self).block_filters,
                row <= tuples@.len(),
                tuples@.len() <= u64::MAX,
                tuples@.len() * columns@.len() <= u64::MAX,
                self.row_id_filter.wf(),
                self.row_id_filter.bit_count() == r0.bit_count(),
                r0.counters().insertions + tuples@.len() <= u64::MAX,
                self.row_id_filter.counters().insertions == r0.counters().insertions + row,
                bits_grow(r0.words(), self.row_id_filter.words()),
                r0 == old(self).row_id_filter,
                self.column_filters@.len() == c_mid.len(),
                forall|q: int| 0 <= q < c_mid.len() ==> (#[trigger] self.column_filters@[q]).column_name == c_mid[q].column_name,
                forall|q: int| 0 <= q < c_mid.len() ==> (#[trigger] self.column_filters@[q]).filter.wf()
                    && self.column_filters@[q].filter.counters().insertions + (tuples@.len() - row) * columns@.len() <= u64::MAX
                    && self.column_filters@[q].row_count + (tuples@.len() - row) * columns@.len() <= u64::MAX,
                forall|q: int| 0 <= q < columns@.len() ==> !unnamed(c_mid, (#[trigger] columns@[q])@),
                forall|q: int| 0 <= q < c_init.len() ==> (#[trigger] c_mid[q]).column_name == c_init[q].column_name,
            decreases tuples@.len() - row,
        {
            let mut values: Vec<(String, Value)> = Vec::new();
            let tuple = &tuples[row];
            let mut k: usize = 0;
            while k < columns.len() && k < tuple.len()
                invariant
                    k <= columns@.len(),
                    values@.len() == k,
                decreases columns@.len() - k,
            {
                values.push((columns[k].clone(), tuple[k].duplicate()));
                k = k + 1;
            }
            proof {
                let rem = (tuples@.len() - row) as int;
                let cl = columns@.len() as int;
                assert(rem * cl == (rem - 1) * cl + cl) by (nonlinear_arith);
                assert((rem - 1) * cl >= 0) by (nonlinear_arith)
                    requires
                        rem >= 1,
                        cl >= 0,
                ;
            }
            let ghost cs_before = self.column_filters@;
            let ghost rf_before = self.row_id_filter;
            self.index_row(row as u64, values.as_slice());
            proof {
                lemma_took_value_grows(rf_before, self.row_id_filter);
                assert(bits_grow(r0.words(), self.row_id_filter.words())) by {
                    assert forall|p: int| 0 <= p < 64 * r0.words().len() && #[trigger] word_bit(r0.words(), p) implies word_bit(self.row_id_filter.words(), p) by {
                        assert(word_bit(rf_before.words(), p));
                    }
                }
                assert forall|q: int| 0 <= q < c_mid.len() implies (#[trigger] self.column_filters@[q]).column_name == c_mid[q].column_name by {
                    assert(self.column_filters@[q].column_name == cs_before[q].column_name);
                }
                assert forall|q: int| 0 <= q < c_mid.len() implies (#[trigger] self.column_filters@[q]).filter.wf()
                    && self.column_filters@[q].filter.counters().insertions + (tuples@.len() - (row + 1)) * columns@.len() <= u64::MAX
                    && self.column_filters@[q].row_count + (tuples@.len() - (row + 1)) * columns@.len() <= u64::MAX by {
                    lemma_hits_bound(values@, cs_before, q);
                    let rem = (tuples@.len() - row) as int;
                    let cl = columns@.len() as int;
                    assert(rem * cl == (rem - 1) * cl + cl) by (nonlinear_arith);
                }
            }
            row = row + 1;
        }
        proof {
            assert forall|c: int| 0 <= c < columns@.len() implies !unnamed(self.column_filters@, (#[trigger] columns@[c])@) by {
                let w = choose|w: int| 0 <= w < c_mid.len() && (#[trigger] c_mid[w]).column_name@ == columns@[c]@;
                assert(self.column_filters@[w].column_name == c_mid[w].column_name);
            }
        }
    }
}

} // verus!
