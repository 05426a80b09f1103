//! Filter index deltas: the lightweight record of what each insert, update
//! or delete adds to a table's bloom filters and zone maps, buffered until a
//! background consolidation folds it into the filters.
use vstd::prelude::*;
use std::collections::HashMap;
use std::sync::atomic::AtomicU64;
use crate::value::{Value, ValueView};
use crate::bloom_filter::{word_bit, BloomFilter, BloomFilterStats};

verus! {

broadcast use vstd::std_specs::hash::group_hash_axioms;

/// Default threshold for automatic bulk load detection (number of rows)
pub const DEFAULT_BULK_LOAD_THRESHOLD: usize = 10000;

/// Reason for bulk load suspension
#[derive(Debug, Clone, Copy, PartialEq, Eq, Structural)]
pub enum BulkLoadReason {
    /// INSERT with multiple VALUES rows
    MultiRowInsert,
    /// INSERT ... SELECT (bulk copy from query)
    InsertSelect,
    /// COPY FROM (file import)
    CopyFrom,
    /// Manual suspension via API/SQL
    Manual,
}

/// Information about a suspended table for bulk operations
#[derive(Debug)]
pub struct SuspendedTableInfo {
    /// When the suspension started (milliseconds since the Unix epoch)
    pub suspended_at: u64,
    /// Reason for suspension
    pub reason: BulkLoadReason,
    /// Rows processed while suspended (for rebuild estimation)
    pub rows_affected: AtomicU64,
}

impl SuspendedTableInfo {
    /// Start a suspension now, with no rows affected yet
    pub fn new(reason: BulkLoadReason) -> (s: Self)
        ensures
            s.reason == reason,
    {
        SuspendedTableInfo {
            suspended_at: crate::clock::unix_millis(&crate::clock::system_time_now()),
            reason,
            rows_affected: AtomicU64::new(0),
        }
    }
}

/// Configuration for filter index delta tracking
#[derive(Debug, Clone, Copy)]
pub struct FilterIndexConfig {
    /// Number of hash functions for bloom filter
    pub num_hashes: u32,
    /// Number of bits in bloom filter
    pub bloom_bits: u64,
    /// Delta threshold before triggering consolidation
    pub delta_threshold: u64,
    /// Enable bloom filter tracking
    pub enable_bloom: bool,
    /// Enable zone map tracking
    pub enable_zone_map: bool,
    /// Maximum deltas to buffer before forced flush
    pub max_buffered_deltas: usize,
    /// Threshold for automatic bulk load detection (number of rows)
    pub bulk_load_threshold: usize,
}

impl Default for FilterIndexConfig {
    fn default() -> (c: Self)
        ensures
            c.num_hashes == 7,
            c.bloom_bits == 1000000,
            c.delta_threshold == 1000,
            c.enable_bloom,
            c.enable_zone_map,
            c.max_buffered_deltas == 10000,
            c.bulk_load_threshold == DEFAULT_BULK_LOAD_THRESHOLD,
    {
        FilterIndexConfig {
            num_hashes: 7,
            bloom_bits: 1000000,
            delta_threshold: 1000,
            enable_bloom: true,
            enable_zone_map: true,
            max_buffered_deltas: 10000,
            bulk_load_threshold: DEFAULT_BULK_LOAD_THRESHOLD,
        }
    }
}

/// Type of delta operation
#[derive(Debug, Clone, Copy, PartialEq, Eq, Structural)]
pub enum FilterDeltaType {
    /// A row was inserted
    Insert,
    /// A row was updated
    Update,
    /// A row was deleted
    Delete,
}

/// Bloom filter delta - bits to OR into base filter
#[derive(Debug, Clone)]
pub struct BloomFilterDelta {
    /// Bits to set: (word_index, bits_mask)
    pub bits_to_set: Vec<(usize, u64)>,
    /// Number of rows added
    pub rows_added: u64,
    /// Column name this delta applies to
    pub column_name: String,
}

impl BloomFilterDelta {
    /// An empty delta for a column
    pub fn new(column_name: &str) -> (d: Self)
        ensures
            d.bits_to_set@.len() == 0,
            d.rows_added == 0,
            d.column_name@ == column_name@,
    {
        BloomFilterDelta { bits_to_set: Vec::new(), rows_added: 0, column_name: String::from_str(column_name) }
    }

    /// Merge another delta into this one: its bits follow ours and the row
    /// counts add up
    pub fn merge(&mut self, other: &BloomFilterDelta)
        requires
            old(self).rows_added + other.rows_added <= u64::MAX,
        ensures
            final(self).bits_to_set@ == old(self).bits_to_set@ + other.bits_to_set@,
            final(self).rows_added == old(self).rows_added + other.rows_added,
            final(self).column_name == old(self).column_name,
    {
        let ghost b0 = self.bits_to_set@;
        let mut i: usize = 0;
        while i < other.bits_to_set.len()
            invariant
                i <= other.bits_to_set@.len(),
                self.bits_to_set@ == b0 + other.bits_to_set@.subrange(0, i as int),
                self.rows_added == old(self).rows_added,
                self.column_name == old(self).column_name,
            decreases other.bits_to_set@.len() - i,
        {
            self.bits_to_set.push(other.bits_to_set[i]);
            i = i + 1;
            proof {
                assert(self.bits_to_set@ =~= b0 + other.bits_to_set@.subrange(0, i as int));
            }
        }
        proof {
            assert(other.bits_to_set@.subrange(0, i as int) =~= other.bits_to_set@);
        }
        self.rows_added = self.rows_added + other.rows_added;
    }

    /// Fold the delta into a bloom filter: OR each mask into its word (a
    /// word past the filter is skipped) and count the rows as insertions.
    pub fn apply_to(&self, filter: &mut BloomFilter)
        requires
            old(filter).wf(),
            self.rows_added <= usize::MAX,
            old(filter).counters().insertions + self.rows_added <= u64::MAX,
        ensures
            final(filter).wf(),
            final(filter).bit_count() == old(filter).bit_count(),
            final(filter).hash_count() == old(filter).hash_count(),
            final(filter).words() == words_after_slots(old(filter).words(), self.bits_to_set@),
            final(filter).counters() == (BloomFilterStats {
                insertions: (old(filter).counters().insertions + self.rows_added) as u64,
                ..old(filter).counters()
            }),
    {
        let mut i: usize = 0;
        while i < self.bits_to_set.len()
            invariant
                i <= self.bits_to_set@.len(),
                filter.wf(),
                filter.bit_count() == old(filter).bit_count(),
                filter.hash_count() == old(filter).hash_count(),
                filter.counters() == old(filter).counters(),
                filter.words() == words_after_slots(old(filter).words(), self.bits_to_set@.take(i as int)),
            decreases self.bits_to_set@.len() - i,
        {
            let (word_idx, mask) = self.bits_to_set[i];
            proof {
                assert(self.bits_to_set@.take(i + 1).drop_last() =~= self.bits_to_set@.take(i as int));
                assert(self.bits_to_set@.take(i + 1).last() == (word_idx, mask));
            }
            filter.apply_delta_bits(word_idx, mask);
            i = i + 1;
        }
        proof {
            assert(self.bits_to_set@.take(i as int) =~= self.bits_to_set@);
        }
        filter.increment_items_added(self.rows_added as usize);
    }
}

/// The filter words after OR-ing in each (word index, mask) slot in turn;
/// a slot past the words changes nothing.
pub open spec fn words_after_slots(words: Seq<u64>, slots: Seq<(usize, u64)>) -> Seq<u64>
    decreases slots.len(),
{
    if slots.len() == 0 {
        words
    } else {
        let w = words_after_slots(words, slots.drop_last());
        let (i, m) = slots.last();
        if i < w.len() {
            w.update(i as int, w[i as int] | m)
        } else {
            w
        }
    }
}

/// Folding a delta into a filter only sets bits: every bit that was set
/// stays set, so every value the filter reported as possibly present still is.
pub proof fn law_delta_keeps_bits(words: Seq<u64>, slots: Seq<(usize, u64)>, i: int)
    requires
        0 <= i < 64 * words.len(),
        word_bit(words, i),
    ensures
        word_bit(words_after_slots(words, slots), i),
    decreases slots.len(),
{
    if slots.len() > 0 {
        law_delta_keeps_bits(words, slots.drop_last(), i);
        let w = words_after_slots(words, slots.drop_last());
        lemma_slots_keep_len(words, slots.drop_last());
        let (j, m) = slots.last();
        if j < w.len() && j as int == i / 64 {
            let x = w[i / 64];
            let s: u64 = (i % 64) as u64;
            assert(((x >> s) & 1 == 1) ==> (((x | m) >> s) & 1 == 1)) by (bit_vector)
                requires
                    s < 64,
            ;
        }
    }
}

/// Applying a merged delta is applying its two parts in turn: the slots of
/// `a` followed by those of `b` (what `merge` makes) set the same bits as
/// the slots of `a`, then those of `b`; the row counts add up the same way.
pub proof fn law_merged_delta_applies_in_turn(words: Seq<u64>, a: Seq<(usize, u64)>, b: Seq<(usize, u64)>)
    ensures
        words_after_slots(words, a + b) == words_after_slots(words_after_slots(words, a), b),
    decreases b.len(),
{
    if b.len() == 0 {
        assert(a + b =~= a);
    } else {
        law_merged_delta_applies_in_turn(words, a, b.drop_last());
        assert((a + b).drop_last() =~= a + b.drop_last());
        assert((a + b).last() == b.last());
    }
}

proof fn lemma_slots_keep_len(words: Seq<u64>, slots: Seq<(usize, u64)>)
    ensures
        words_after_slots(words, slots).len() == words.len(),
    decreases slots.len(),
{
    if slots.len() > 0 {
        lemma_slots_keep_len(words, slots.drop_last());
    }
}

/// The bloom filter bit of hash round `k` for a value hashed to `(h1, h2)`
/// (double hashing: `(h1 + k) * h2`, wrapping, modulo the filter size).
pub open spec fn bloom_bit(h1: u64, h2: u64, k: u64, bloom_bits: u64) -> u64 {
    h1.wrapping_add(k).wrapping_mul(h2) % bloom_bits
}

/// The (word index, bit mask) of a filter bit.
pub open spec fn bit_slot(bit: u64) -> (usize, u64) {
    ((bit / 64) as usize, (1u64 << (bit % 64)) as u64)
}

/// The slots a value hashed to `(h1, h2)` sets, one per hash round, in order.
pub fn bloom_slots(h1: u64, h2: u64, num_hashes: u32, bloom_bits: u64) -> (r: Vec<(usize, u64)>)
    requires
        bloom_bits > 0,
    ensures
        r@.len() == num_hashes,
        forall|k: int| 0 <= k < num_hashes ==> #[trigger] r@[k] == bit_slot(bloom_bit(h1, h2, k as u64, bloom_bits)),
{
    let mut r: Vec<(usize, u64)> = Vec::new();
    let mut k: u32 = 0;
    while k < num_hashes
        invariant
            k <= num_hashes,
            bloom_bits > 0,
            r@.len() == k,
            forall|j: int| 0 <= j < k ==> #[trigger] r@[j] == bit_slot(bloom_bit(h1, h2, j as u64, bloom_bits)),
        decreases num_hashes - k,
    {
        let bit_pos: u64 = h1.wrapping_add(k as u64).wrapping_mul(h2) % bloom_bits;
        let word_idx: usize = (bit_pos / 64) as usize;
        let bit_mask: u64 = 1u64 << (bit_pos % 64);
        r.push((word_idx, bit_mask));
        k = k + 1;
    }
    r
}

/// The bloom filter delta of one value of a column hashed to `(h1, h2)`:
/// the slots of every hash round, and one row added.
pub fn bloom_delta_for(column_name: &str, h1: u64, h2: u64, config: &FilterIndexConfig) -> (d: BloomFilterDelta)
    requires
        config.bloom_bits > 0,
    ensures
        d.column_name@ == column_name@,
        d.rows_added == 1,
        d.bits_to_set@.len() == config.num_hashes,
        forall|k: int| 0 <= k < config.num_hashes ==> #[trigger] d.bits_to_set@[k] == bit_slot(
            bloom_bit(h1, h2, k as u64, config.bloom_bits),
        ),
{
    let mut delta = BloomFilterDelta::new(column_name);
    delta.bits_to_set = bloom_slots(h1, h2, config.num_hashes, config.bloom_bits);
    delta.rows_added = 1;
    delta
}

/// Update for a single column in zone map
#[derive(Debug, Clone)]
pub struct ZoneColumnUpdate {
    /// The column
    pub column_name: String,
    /// Its new value
    pub value: Value,
    /// Whether the value is null
    pub is_null: bool,
}

impl ZoneColumnUpdate {
    /// A copy of the update.
    pub fn duplicate(&self) -> (r: Self)
        ensures
            r.column_name@ == self.column_name@,
            r.value@ == self.value@,
            r.is_null == self.is_null,
    {
        ZoneColumnUpdate { column_name: self.column_name.clone(), value: self.value.duplicate(), is_null: self.is_null }
    }
}

/// Zone map delta for incremental min/max updates
#[derive(Debug, Clone)]
pub struct ZoneMapDelta {
    /// Block ID this delta applies to
    pub block_id: u64,
    /// Column updates
    pub column_updates: Vec<ZoneColumnUpdate>,
    /// Number of rows affected
    pub rows_affected: u64,
    /// Delta type
    pub delta_type: FilterDeltaType,
}

impl ZoneMapDelta {
    /// An empty delta for a block
    pub fn new(block_id: u64, delta_type: FilterDeltaType) -> (d: Self)
        ensures
            d.block_id == block_id,
            d.column_updates@.len() == 0,
            d.rows_affected == 0,
            d.delta_type == delta_type,
    {
        ZoneMapDelta { block_id, column_updates: Vec::new(), rows_affected: 0, delta_type }
    }

    /// Record a column's value
    pub fn add_column_update(&mut self, column_name: &str, value: &Value)
        ensures
            final(self).column_updates@.len() == old(self).column_updates@.len() + 1,
            forall|i: int| 0 <= i < old(self).column_updates@.len() ==> #[trigger] final(self).column_updates@[i] == old(
                self,
            ).column_updates@[i],
            ({
                let u = final(self).column_updates@[old(self).column_updates@.len() as int];
                &&& u.column_name@ == column_name@
                &&& u.value@ == value@
                &&& u.is_null == (value@ is Null)
            }),
            final(self).block_id == old(self).block_id,
            final(self).rows_affected == old(self).rows_affected,
            final(self).delta_type == old(self).delta_type,
    {
        self.column_updates.push(
            ZoneColumnUpdate { column_name: String::from_str(column_name), value: value.duplicate(), is_null: value.is_null() },
        );
    }
}

/// Combined filter delta for a single DML operation
#[derive(Debug, Clone)]
pub struct FilterDelta {
    /// Sequence number
    pub seq: u64,
    /// Table name
    pub table_name: String,
    /// Row ID affected
    pub row_id: u64,
    /// Delta type
    pub delta_type: FilterDeltaType,
    /// Bloom filter deltas per column
    pub bloom_deltas: HashMap<String, BloomFilterDelta>,
    /// Zone map delta
    pub zone_delta: Option<ZoneMapDelta>,
    /// Timestamp (milliseconds since the Unix epoch)
    pub timestamp: u64,
}

impl FilterDelta {
    /// An empty delta for a row, stamped with the current time
    pub fn new(seq: u64, table_name: &str, row_id: u64, delta_type: FilterDeltaType) -> (d: Self)
        ensures
            d.seq == seq,
            d.table_name@ == table_name@,
            d.row_id == row_id,
            d.delta_type == delta_type,
            d.bloom_deltas@ == Map::<String, BloomFilterDelta>::empty(),
            d.zone_delta is None,
    {
        FilterDelta {
            seq,
            table_name: String::from_str(table_name),
            row_id,
            delta_type,
            bloom_deltas: HashMap::new(),
            zone_delta: None,
            timestamp: crate::clock::unix_millis(&crate::clock::system_time_now()),
        }
    }
}

/// Per-table filter delta buffer
#[derive(Debug)]
pub struct TableFilterDeltas {
    /// Bloom filter deltas per column
    pub bloom_deltas: HashMap<String, BloomFilterDelta>,
    /// Zone map deltas per block
    pub zone_deltas: HashMap<u64, ZoneMapDelta>,
    /// Total delta count
    pub delta_count: u64,
    /// Last flush timestamp
    pub last_flush: u64,
}

impl TableFilterDeltas {
    /// An empty buffer
    pub fn new() -> (t: Self)
        ensures
            t.bloom_deltas@ == Map::<String, BloomFilterDelta>::empty(),
            t.zone_deltas@ == Map::<u64, ZoneMapDelta>::empty(),
            t.delta_count == 0,
            t.last_flush == 0,
    {
        TableFilterDeltas { bloom_deltas: HashMap::new(), zone_deltas: HashMap::new(), delta_count: 0, last_flush: 0 }
    }

    /// Check if consolidation is needed
    pub fn needs_consolidation(&self, threshold: u64) -> (r: bool)
        ensures
            r == (self.delta_count >= threshold),
    {
        self.delta_count >= threshold
    }

    /// Clear all deltas after consolidation, stamping the flush time
    pub fn clear(&mut self)
        ensures
            final(self).bloom_deltas@ == Map::<String, BloomFilterDelta>::empty(),
            final(self).zone_deltas@ == Map::<u64, ZoneMapDelta>::empty(),
            final(self).delta_count == 0,
    {
        self.bloom_deltas.clear();
        self.zone_deltas.clear();
        self.delta_count = 0;
        self.last_flush = crate::clock::unix_millis(&crate::clock::system_time_now());
    }
}

impl Default for TableFilterDeltas {
    fn default() -> (t: Self)
        ensures
            t.bloom_deltas@ == Map::<String, BloomFilterDelta>::empty(),
            t.zone_deltas@ == Map::<u64, ZoneMapDelta>::empty(),
            t.delta_count == 0,
            t.last_flush == 0,
    {
        Self::new()
    }
}

/// Keep the pending deltas bounded: when there are more than `max`, the
/// older half is dropped.
pub fn trim_pending<T>(pending: &mut Vec<T>, max: usize)
    ensures
        old(pending)@.len() <= max ==> final(pending)@ == old(pending)@,
        old(pending)@.len() > max ==> final(pending)@ == old(pending)@.subrange(
            (old(pending)@.len() / 2) as int,
            old(pending)@.len() as int,
        ),
{
    if pending.len() > max {
        let drain_count = pending.len() / 2;
        let rest = pending.split_off(drain_count);
        *pending = rest;
    }
}

/// The zone map block of a row: blocks hold 1000 rows.
pub fn zone_block_of(row_id: u64) -> (b: u64)
    ensures
        b == row_id / 1000,
{
    row_id / 1000
}

/// Statistics for filter delta tracking
#[derive(Debug, Clone)]
pub struct FilterDeltaStats {
    /// Operations tracked
    pub total_operations: u64,
    /// Current delta sequence number
    pub current_seq: u64,
    /// Tables with buffered deltas
    pub tables_tracked: usize,
    /// Deltas waiting to be persisted
    pub pending_deltas: usize,
    /// Deltas buffered over all tables
    pub total_buffered_deltas: u64,
    /// Tables suspended for bulk loads
    pub suspended_tables: usize,
    /// Whether tracking is on
    pub enabled: bool,
}

/// Result of a bulk load operation with filter-index statistics
#[derive(Debug, Clone)]
pub struct BulkLoadResult {
    /// The table
    pub table_name: String,
    /// Rows loaded
    pub rows_loaded: u64,
    /// Time taken, in milliseconds
    pub duration_ms: u64,
    /// Whether a filter rebuild was scheduled
    pub rebuild_scheduled: bool,
}

} // verus!
