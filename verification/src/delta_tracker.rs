//! The filter index delta tracker: as rows are inserted, updated and
//! deleted it records which bloom filter bits and which zone map updates
//! each table's filters need, buffers them per table until consolidation,
//! keeps the deltas waiting to be persisted, and skips tables suspended for
//! bulk loads. Callers that share a tracker between threads hold it behind
//! a lock.
use vstd::prelude::*;
use std::collections::HashMap;
use std::collections::hash_map::DefaultHasher;
use std::hash::Hasher;
use crate::value::{Value, ValueView};
use crate::text::str_eq;
use crate::zone_summary::feed;
use crate::filter_delta::{
    bloom_delta_for, bit_slot, bloom_bit, trim_pending, zone_block_of, BloomFilterDelta, BulkLoadReason, FilterDelta,
    FilterDeltaStats, FilterDeltaType, FilterIndexConfig, SuspendedTableInfo, TableFilterDeltas, ZoneColumnUpdate, ZoneMapDelta,
};

verus! {

/// A table's buffered deltas: one bloom delta per column, one zone delta per block.
struct TableBuffer {
    name: String,
    bloom: Vec<BloomFilterDelta>,
    zones: Vec<ZoneMapDelta>,
    delta_count: u64,
}

/// Column names and block ids occur once, and no row count exceeds the
/// table's delta count.
spec fn buffer_ok(b: TableBuffer) -> bool {
    &&& forall|i: int, j: int| 0 <= i < j < b.bloom@.len() ==> (#[trigger] b.bloom@[i]).column_name@ != (#[trigger] b.bloom@[j]).column_name@
    &&& forall|i: int| 0 <= i < b.bloom@.len() ==> (#[trigger] b.bloom@[i]).rows_added <= b.delta_count
    &&& forall|i: int, j: int| 0 <= i < j < b.zones@.len() ==> (#[trigger] b.zones@[i]).block_id != (#[trigger] b.zones@[j]).block_id
    &&& forall|i: int| 0 <= i < b.zones@.len() ==> (#[trigger] b.zones@[i]).rows_affected <= b.delta_count
}


/// A bloom delta as the specifications see it.
pub struct BloomDeltaView {
    /// The column
    pub column: Seq<char>,
    /// The (word index, mask) slots to set, in order
    pub bits: Seq<(usize, u64)>,
    /// Rows counted
    pub rows: u64,
}

/// The view of a bloom delta.
pub open spec fn bloom_view(d: BloomFilterDelta) -> BloomDeltaView {
    BloomDeltaView { column: d.column_name@, bits: d.bits_to_set@, rows: d.rows_added }
}

/// The views of a list of bloom deltas.
pub open spec fn bloom_views(ds: Seq<BloomFilterDelta>) -> Seq<BloomDeltaView> {
    ds.map_values(|d: BloomFilterDelta| bloom_view(d))
}

/// The bloom deltas after one more is folded in: the column's delta takes
/// its slots (after its own) and its rows; a column without one gets it.
pub open spec fn absorb_bloom(bs: Seq<BloomDeltaView>, v: BloomDeltaView) -> Seq<BloomDeltaView> {
    if exists|j: int| 0 <= j < bs.len() && bs[j].column == v.column {
        let j = choose|j: int| 0 <= j < bs.len() && bs[j].column == v.column;
        bs.update(j, BloomDeltaView { column: bs[j].column, bits: bs[j].bits + v.bits, rows: (bs[j].rows + v.rows) as u64 })
    } else {
        bs.push(v)
    }
}

/// The bloom deltas after each of `vs` is folded in, in order.
pub open spec fn absorb_blooms(bs: Seq<BloomDeltaView>, vs: Seq<BloomDeltaView>) -> Seq<BloomDeltaView>
    decreases vs.len(),
{
    if vs.len() == 0 {
        bs
    } else {
        absorb_bloom(absorb_blooms(bs, vs.drop_last()), vs.last())
    }
}

/// A zone column update as the specifications see it: column, value, null flag.
pub open spec fn zone_update_view(u: ZoneColumnUpdate) -> (Seq<char>, ValueView, bool) {
    (u.column_name@, u.value@, u.is_null)
}

/// A zone delta as the specifications see it.
pub struct ZoneDeltaView {
    /// The block
    pub block: u64,
    /// The column updates, in order
    pub updates: Seq<(Seq<char>, ValueView, bool)>,
    /// Rows counted
    pub rows: u64,
    /// The kind of operation that opened the delta
    pub kind: FilterDeltaType,
}

/// The view of a zone delta.
pub open spec fn zone_view(z: ZoneMapDelta) -> ZoneDeltaView {
    ZoneDeltaView {
        block: z.block_id,
        updates: z.column_updates@.map_values(|u: ZoneColumnUpdate| zone_update_view(u)),
        rows: z.rows_affected,
        kind: z.delta_type,
    }
}

/// The views of a list of zone deltas.
pub open spec fn zone_views(zs: Seq<ZoneMapDelta>) -> Seq<ZoneDeltaView> {
    zs.map_values(|z: ZoneMapDelta| zone_view(z))
}

/// The zone deltas after one more is folded in: the block's delta takes
/// its column updates (after its own) and its rows; a block without one gets it.
pub open spec fn absorb_zone(zs: Seq<ZoneDeltaView>, v: ZoneDeltaView) -> Seq<ZoneDeltaView> {
    if exists|j: int| 0 <= j < zs.len() && zs[j].block == v.block {
        let j = choose|j: int| 0 <= j < zs.len() && zs[j].block == v.block;
        zs.update(j, ZoneDeltaView { updates: zs[j].updates + v.updates, rows: (zs[j].rows + v.rows) as u64, ..zs[j] })
    } else {
        zs.push(v)
    }
}

/// Among entries with distinct columns, the one of a column is the one chosen.
proof fn lemma_bloom_choice(bs: Seq<BloomDeltaView>, j: int, c: Seq<char>)
    requires
        forall|a: int, b: int| 0 <= a < b < bs.len() ==> bs[a].column != bs[b].column,
        0 <= j < bs.len(),
        bs[j].column == c,
    ensures
        (choose|k: int| 0 <= k < bs.len() && bs[k].column == c) == j,
{
    let k = choose|k: int| 0 <= k < bs.len() && bs[k].column == c;
    assert(0 <= k < bs.len() && bs[k].column == c);
    if k < j {
        assert(bs[k].column != bs[j].column);
    } else if k > j {
        assert(bs[j].column != bs[k].column);
    }
}

/// Among entries with distinct blocks, the one of a block is the one chosen.
proof fn lemma_zone_choice(zs: Seq<ZoneDeltaView>, j: int, b: u64)
    requires
        forall|x: int, y: int| 0 <= x < y < zs.len() ==> zs[x].block != zs[y].block,
        0 <= j < zs.len(),
        zs[j].block == b,
    ensures
        (choose|k: int| 0 <= k < zs.len() && zs[k].block == b) == j,
{
    let k = choose|k: int| 0 <= k < zs.len() && zs[k].block == b;
    assert(0 <= k < zs.len() && zs[k].block == b);
    if k < j {
        assert(zs[k].block != zs[j].block);
    } else if k > j {
        assert(zs[j].block != zs[k].block);
    }
}

/// The sum of a sequence of counters.
pub open spec fn total(cs: Seq<u64>) -> nat
    decreases cs.len(),
{
    if cs.len() == 0 {
        0
    } else {
        total(cs.drop_last()) + cs.last() as nat
    }
}

proof fn lemma_total_update(cs: Seq<u64>, i: int, v: u64)
    requires
        0 <= i < cs.len(),
    ensures
        total(cs.update(i, v)) == total(cs) - cs[i] + v,
        cs[i] <= total(cs),
    decreases cs.len(),
{
    if i == cs.len() - 1 {
        assert(cs.update(i, v).drop_last() =~= cs.drop_last());
    } else {
        assert(cs.update(i, v).drop_last() =~= cs.drop_last().update(i, v));
        lemma_total_update(cs.drop_last(), i, v);
    }
}

proof fn lemma_total_remove(cs: Seq<u64>, i: int)
    requires
        0 <= i < cs.len(),
    ensures
        total(cs.remove(i)) == total(cs) - cs[i],
    decreases cs.len(),
{
    if i == cs.len() - 1 {
        assert(cs.remove(i) =~= cs.drop_last());
    } else {
        assert(cs.remove(i).drop_last() =~= cs.drop_last().remove(i));
        lemma_total_remove(cs.drop_last(), i);
    }
}

proof fn lemma_total_push(cs: Seq<u64>, v: u64)
    ensures
        total(cs.push(v)) == total(cs) + v,
{
    assert(cs.push(v).drop_last() =~= cs);
}

/// Where `t` occurs in `names`.
pub open spec fn position(names: Seq<Seq<char>>, t: Seq<char>) -> int {
    choose|i: int| 0 <= i < names.len() && names[i] == t
}

/// No name occurs twice.
pub open spec fn distinct(names: Seq<Seq<char>>) -> bool {
    forall|i: int, j: int| 0 <= i < j < names.len() ==> names[i] != names[j]
}

proof fn lemma_position(names: Seq<Seq<char>>, i: int)
    requires
        distinct(names),
        0 <= i < names.len(),
    ensures
        names.contains(names[i]),
        position(names, names[i]) == i,
{
    assert(names[i] == names[i]);
    let p = position(names, names[i]);
    if p < i {
        assert(names[p] != names[i]);
    } else if p > i {
        assert(names[i] != names[p]);
    }
}

/// The tables buffered after one more delta of table `t`.
pub open spec fn bump_names(names: Seq<Seq<char>>, t: Seq<char>) -> Seq<Seq<char>> {
    if names.contains(t) {
        names
    } else {
        names.push(t)
    }
}

/// The delta counts after one more delta of table `t`.
pub open spec fn bump_counts(names: Seq<Seq<char>>, counts: Seq<u64>, t: Seq<char>) -> Seq<u64> {
    if names.contains(t) {
        counts.update(position(names, t), (counts[position(names, t)] + 1) as u64)
    } else {
        counts.push(1)
    }
}

/// How many deltas are pending after one is added to `n` and the list is trimmed.
pub open spec fn pending_after(n: nat, max: usize) -> nat {
    if n + 1 > max {
        ((n + 1) - (n + 1) / 2) as nat
    } else {
        n + 1
    }
}

/// Lightweight tracking of filter index updates during DML.
pub struct FilterIndexDeltaTracker {
    tables: Vec<TableBuffer>,
    delta_seq: u64,
    config: FilterIndexConfig,
    pending_deltas: Vec<FilterDelta>,
    total_operations: u64,
    hash_seed1: u64,
    hash_seed2: u64,
    suspended_tables: Vec<(String, SuspendedTableInfo)>,
    enabled: bool,
    bulk_load_threshold: usize,
}

impl FilterIndexDeltaTracker {
    /// The tables with buffered deltas, in the order they were first buffered.
    pub closed spec fn buffered_tables(&self) -> Seq<Seq<char>> {
        self.tables@.map_values(|t: TableBuffer| t.name@)
    }

    /// The buffered delta count of each buffered table.
    pub closed spec fn counts(&self) -> Seq<u64> {
        self.tables@.map_values(|t: TableBuffer| t.delta_count)
    }

    /// Operations recorded so far.
    pub closed spec fn ops(&self) -> u64 {
        self.total_operations
    }

    /// The suspended tables.
    pub closed spec fn suspended(&self) -> Seq<Seq<char>> {
        self.suspended_tables@.map_values(|e: (String, SuspendedTableInfo)| e.0@)
    }

    /// Why each suspended table is suspended.
    pub closed spec fn reasons(&self) -> Seq<BulkLoadReason> {
        self.suspended_tables@.map_values(|e: (String, SuspendedTableInfo)| e.1.reason)
    }

    /// Is tracking on?
    pub closed spec fn enabled_flag(&self) -> bool {
        self.enabled
    }

    /// The bulk load threshold.
    pub closed spec fn threshold(&self) -> usize {
        self.bulk_load_threshold
    }

    /// The deltas waiting to be persisted, oldest first.
    pub closed spec fn pending(&self) -> Seq<FilterDelta> {
        self.pending_deltas@
    }

    /// The configuration.
    pub closed spec fn config_spec(&self) -> FilterIndexConfig {
        self.config
    }

    /// Does the tracker record operations on this table?
    pub open spec fn tracks(&self, table: Seq<char>) -> bool {
        self.enabled_flag() && !self.suspended().contains(table)
    }

    /// Names occur once, the counters agree, and the buffered deltas are
    /// no more than the operations recorded.
    pub closed spec fn wf(&self) -> bool {
        &&& self.config.bloom_bits > 0
        &&& self.delta_seq == self.total_operations
        &&& distinct(self.buffered_tables())
        &&& distinct(self.suspended())
        &&& forall|i: int| 0 <= i < self.tables@.len() ==> buffer_ok(#[trigger] self.tables@[i])
        &&& total(self.counts()) <= self.total_operations
    }

    /// A tracker with nothing buffered, tracking on.
    pub fn new(config: FilterIndexConfig) -> (t: Self)
        requires
            config.bloom_bits > 0,
        ensures
            t.wf(),
            t.buffered_tables() == Seq::<Seq<char>>::empty(),
            t.counts() == Seq::<u64>::empty(),
            t.ops() == 0,
            t.suspended() == Seq::<Seq<char>>::empty(),
            t.enabled_flag(),
            t.threshold() == config.bulk_load_threshold,
            t.pending() == Seq::<FilterDelta>::empty(),
            t.config_spec() == config,
    {
        let t = FilterIndexDeltaTracker {
            tables: Vec::new(),
            delta_seq: 0,
            config,
            pending_deltas: Vec::new(),
            total_operations: 0,
            hash_seed1: 0x517cc1b727220a95,
            hash_seed2: 0x7369726564616f72,
            suspended_tables: Vec::new(),
            enabled: true,
            bulk_load_threshold: config.bulk_load_threshold,
        };
        proof {
            assert(t.buffered_tables() =~= Seq::<Seq<char>>::empty());
            assert(t.counts() =~= Seq::<u64>::empty());
            assert(t.suspended() =~= Seq::<Seq<char>>::empty());
        }
        t
    }

    /// The bulk load threshold.
    pub fn bulk_load_threshold(&self) -> (r: usize)
        ensures
            r == self.threshold(),
    {
        self.bulk_load_threshold
    }

    /// Set the bulk load threshold.
    pub fn set_bulk_load_threshold(&mut self, threshold: usize)
        requires
            old(self).wf(),
        ensures
            final(self).wf(),
            final(self).threshold() == threshold,
            final(self).buffered_tables() == old(self).buffered_tables(),
            final(self).counts() == old(self).counts(),
            final(self).ops() == old(self).ops(),
            final(self).suspended() == old(self).suspended(),
            final(self).enabled_flag() == old(self).enabled_flag(),
            final(self).pending() == old(self).pending(),
    {
        self.bulk_load_threshold = threshold;
    }

    /// Turn tracking on or off.
    pub fn set_enabled(&mut self, enabled: bool)
        requires
            old(self).wf(),
        ensures
            final(self).wf(),
            final(self).enabled_flag() == enabled,
            final(self).buffered_tables() == old(self).buffered_tables(),
            final(self).counts() == old(self).counts(),
            final(self).ops() == old(self).ops(),
            final(self).suspended() == old(self).suspended(),
            final(self).threshold() == old(self).threshold(),
            final(self).pending() == old(self).pending(),
    {
        self.enabled = enabled;
    }

    /// Is tracking on?
    pub fn is_enabled(&self) -> (r: bool)
        ensures
            r == self.enabled_flag(),
    {
        self.enabled
    }

    /// Where the table is among the suspended ones.
    fn find_suspended(&self, table: &str) -> (r: Option<usize>)
        requires
            self.wf(),
        ensures
            r is Some <==> self.suspended().contains(table@),
            r matches Some(i) ==> i < self.suspended().len() && i == position(self.suspended(), table@),
    {
        let mut i: usize = 0;
        while i < self.suspended_tables.len()
            invariant
                self.wf(),
                i <= self.suspended_tables@.len(),
                forall|j: int| 0 <= j < i ==> self.suspended()[j] != table@,
            decreases self.suspended_tables@.len() - i,
        {
            if str_eq(self.suspended_tables[i].0.as_str(), table) {
                proof {
                    lemma_position(self.suspended(), i as int);
                }
                return Some(i);
            }
            i = i + 1;
        }
        None
    }

    /// Suspend tracking of a table for a bulk operation (a suspended table
    /// gets its suspension restarted).
    pub fn suspend_table(&mut self, table: &str, reason: BulkLoadReason)
        requires
            old(self).wf(),
        ensures
            final(self).wf(),
            final(self).suspended() == bump_names(old(self).suspended(), table@),
            final(self).reasons()[position(final(self).suspended(), table@)] == reason,
            final(self).suspended().contains(table@),
            final(self).buffered_tables() == old(self).buffered_tables(),
            final(self).counts() == old(self).counts(),
            final(self).ops() == old(self).ops(),
            final(self).enabled_flag() == old(self).enabled_flag(),
            final(self).threshold() == old(self).threshold(),
            final(self).pending() == old(self).pending(),
    {
        let info = SuspendedTableInfo::new(reason);
        let ghost s0 = self.suspended();
        match self.find_suspended(table) {
            Some(i) => {
                self.suspended_tables.set(i, (String::from_str(table), info));
                proof {
                    assert(self.suspended() =~= s0);
                    lemma_position(self.suspended(), i as int);
                }
            },
            None => {
                self.suspended_tables.push((String::from_str(table), info));
                proof {
                    assert(self.suspended() =~= s0.push(table@));
                    assert(distinct(self.suspended())) by {
                        assert forall|i: int, j: int| 0 <= i < j < self.suspended().len() implies self.suspended()[i] != self.suspended()[j] by {
                            if j == s0.len() {
                                assert(s0.contains(s0[i]) || !s0.contains(table@));
                            }
                        }
                    }
                    lemma_position(self.suspended(), s0.len() as int);
                }
            },
        }
    }

    /// End the suspension of a table, handing back its record.
    pub fn resume_table(&mut self, table: &str) -> (r: Option<SuspendedTableInfo>)
        requires
            old(self).wf(),
        ensures
            final(self).wf(),
            r is Some <==> old(self).suspended().contains(table@),
            r matches Some(info) ==> info.reason == old(self).reasons()[position(old(self).suspended(), table@)]
                && final(self).suspended() == old(self).suspended().remove(position(old(self).suspended(), table@)),
            r is None ==> final(self).suspended() == old(self).suspended(),
            !final(self).suspended().contains(table@),
            final(self).buffered_tables() == old(self).buffered_tables(),
            final(self).counts() == old(self).counts(),
            final(self).ops() == old(self).ops(),
            final(self).enabled_flag() == old(self).enabled_flag(),
            final(self).threshold() == old(self).threshold(),
            final(self).pending() == old(self).pending(),
    {
        let ghost s0 = self.suspended();
        let ghost r0 = self.reasons();
        match self.find_suspended(table) {
            Some(i) => {
                let (_name, info) = self.suspended_tables.remove(i);
                proof {
                    assert(self.suspended() =~= s0.remove(i as int));
                    assert(info.reason == r0[i as int]);
                    assert(distinct(self.suspended())) by {
                        assert forall|a: int, b: int| 0 <= a < b < self.suspended().len() implies self.suspended()[a] != self.suspended()[b] by {
                            let a0 = if a < i { a } else { a + 1 };
                            let b0 = if b < i { b } else { b + 1 };
                            assert(self.suspended()[a] == s0[a0] && self.suspended()[b] == s0[b0]);
                        }
                    }
                    if self.suspended().contains(table@) {
                        let k = choose|k: int| 0 <= k < self.suspended().len() && self.suspended()[k] == table@;
                        let k0 = if k < i { k } else { k + 1 };
                        assert(s0[k0] == table@);
                        assert(s0[i as int] == table@);
                    }
                }
                Some(info)
            },
            None => None,
        }
    }

    /// Is the table suspended?
    pub fn is_suspended(&self, table: &str) -> (r: bool)
        requires
            self.wf(),
        ensures
            r == self.suspended().contains(table@),
    {
        self.find_suspended(table).is_some()
    }

    /// The suspension record of a table.
    pub fn get_suspension_info(&self, table: &str) -> (r: Option<&SuspendedTableInfo>)
        requires
            self.wf(),
        ensures
            r is Some <==> self.suspended().contains(table@),
            r matches Some(info) ==> info.reason == self.reasons()[position(self.suspended(), table@)],
    {
        match self.find_suspended(table) {
            Some(i) => Some(&self.suspended_tables[i].1),
            None => None,
        }
    }

    /// The suspended tables with their reasons.
    pub fn list_suspended_tables(&self) -> (r: Vec<(String, BulkLoadReason)>)
        ensures
            r@.len() == self.suspended().len(),
            forall|i: int| 0 <= i < r@.len() ==> (#[trigger] r@[i]).0@ == self.suspended()[i] && r@[i].1 == self.reasons()[i],
    {
        let mut r: Vec<(String, BulkLoadReason)> = Vec::new();
        let mut i: usize = 0;
        while i < self.suspended_tables.len()
            invariant
                i <= self.suspended_tables@.len(),
                r@.len() == i,
                forall|j: int| 0 <= j < i ==> (#[trigger] r@[j]).0@ == self.suspended()[j] && r@[j].1 == self.reasons()[j],
            decreases self.suspended_tables@.len() - i,
        {
            r.push((self.suspended_tables[i].0.clone(), self.suspended_tables[i].1.reason));
            i = i + 1;
        }
        r
    }

    /// Count a row that arrived while the table was suspended.
    fn record_suspended_row(&self, table: &str)
        requires
            self.wf(),
    {
        match self.find_suspended(table) {
            Some(i) => {
                self.suspended_tables[i].1.rows_affected.fetch_add(1, std::sync::atomic::Ordering::Relaxed);
            },
            None => {},
        }
    }

    /// The hash pair of a value for the bloom filter deltas.
    fn hash_value(&self, value: &Value) -> (u64, u64) {
        let mut hasher1 = DefaultHasher::new();
        feed(&self.hash_seed1, &mut hasher1);
        match value {
            Value::Int2(i) => feed(i, &mut hasher1),
            Value::Int4(i) => feed(i, &mut hasher1),
            Value::Int8(i) => feed(i, &mut hasher1),
            Value::String(s) => feed(s.as_str(), &mut hasher1),
            Value::Boolean(b) => feed(b, &mut hasher1),
            Value::Bytes(b) => feed(b.as_slice(), &mut hasher1),
            Value::Null => feed(&0u64, &mut hasher1),
            Value::Timestamp(t) => feed(t, &mut hasher1),
            Value::DictRef { dict_id } => feed(dict_id, &mut hasher1),
            Value::CasRef { hash } => feed(hash.as_slice(), &mut hasher1),
            Value::ColumnarRef => feed(&0u64, &mut hasher1),
        }
        let h1 = hasher1.finish();
        let mut hasher2 = DefaultHasher::new();
        feed(&self.hash_seed2, &mut hasher2);
        feed(&h1, &mut hasher2);
        let h2 = hasher2.finish();
        (h1, h2)
    }

    /// The bloom filter delta of one value of a column: the slots of its
    /// hash pair for every hash round, one row added.
    pub fn compute_bloom_delta(&self, column_name: &str, value: &Value) -> (d: BloomFilterDelta)
        requires
            self.wf(),
        ensures
            d.column_name@ == column_name@,
            d.rows_added == 1,
            d.bits_to_set@.len() == self.config_spec().num_hashes,
            exists|h1: u64, h2: u64| #[trigger] slots_of(d.bits_to_set@, h1, h2, self.config_spec().num_hashes, self.config_spec().bloom_bits),
    {
        let (h1, h2) = self.hash_value(value);
        let d = bloom_delta_for(column_name, h1, h2, &self.config);
        proof {
            assert(slots_of(d.bits_to_set@, h1, h2, self.config.num_hashes, self.config.bloom_bits));
        }
        d
    }
}

/// The slots a value hashed to `(h1, h2)` sets, one per hash round.
pub open spec fn slots_of(bits: Seq<(usize, u64)>, h1: u64, h2: u64, num_hashes: u32, bloom_bits: u64) -> bool {
    &&& bits.len() == num_hashes
    &&& forall|k: int| 0 <= k < num_hashes ==> #[trigger] bits[k] == bit_slot(bloom_bit(h1, h2, k as u64, bloom_bits))
}

/// The bloom deltas of one operation: column names occur once, one row each.
spec fn op_blooms_ok(ds: Seq<BloomFilterDelta>) -> bool {
    &&& forall|i: int, j: int| 0 <= i < j < ds.len() ==> (#[trigger] ds[i]).column_name@ != (#[trigger] ds[j]).column_name@
    &&& forall|i: int| 0 <= i < ds.len() ==> (#[trigger] ds[i]).rows_added == 1
}

/// Some delta of `ds` is of column `name`.
pub open spec fn names_column(ds: Seq<BloomFilterDelta>, name: Seq<char>) -> bool {
    exists|j: int| #![trigger ds[j]] 0 <= j < ds.len() && ds[j].column_name@ == name
}

/// The place of the delta of column `name` in `ds`, where there is one.
pub open spec fn name_index(ds: Seq<BloomFilterDelta>, name: Seq<char>) -> int {
    choose|j: int| #![trigger ds[j]] 0 <= j < ds.len() && ds[j].column_name@ == name
}

/// Put a delta in the list, in place of one of the same column.
fn put_bloom(ds: &mut Vec<BloomFilterDelta>, d: BloomFilterDelta)
    requires
        op_blooms_ok(old(ds)@),
        d.rows_added == 1,
    ensures
        op_blooms_ok(final(ds)@),
        names_column(old(ds)@, d.column_name@) ==> final(ds)@ == old(ds)@.update(name_index(old(ds)@, d.column_name@), d),
        !names_column(old(ds)@, d.column_name@) ==> final(ds)@ == old(ds)@.push(d),
{
    let ghost d0 = ds@;
    assert(d0 == old(ds)@);
    let mut i: usize = 0;
    while i < ds.len()
        invariant
            ds@ == d0,
            d0 == old(ds)@,
            op_blooms_ok(d0),
            d.rows_added == 1,
            i <= ds@.len(),
            forall|j: int| 0 <= j < i ==> (#[trigger] ds@[j]).column_name@ != d.column_name@,
        decreases ds@.len() - i,
    {
        if str_eq(ds[i].column_name.as_str(), d.column_name.as_str()) {
            proof {
                assert(d0[i as int].column_name@ == d.column_name@);
                assert(names_column(d0, d.column_name@));
                let k = name_index(d0, d.column_name@);
                assert(0 <= k < d0.len() && d0[k].column_name@ == d.column_name@);
                if k < i {
                } else if k > i {
                    assert(d0[i as int].column_name@ != d0[k].column_name@);
                }
                assert(k == i);
            }
            ds.set(i, d);
            proof {
                assert(ds@ == d0.update(i as int, d));
                assert forall|a: int, b: int| 0 <= a < b < ds@.len() implies (#[trigger] ds@[a]).column_name@ != (#[trigger] ds@[b]).column_name@ by {
                    assert(ds@[a].column_name@ == d0[a].column_name@);
                    assert(ds@[b].column_name@ == d0[b].column_name@);
                }
            }
            return;
        }
        i = i + 1;
    }
    ds.push(d);
    proof {
        assert forall|a: int, b: int| 0 <= a < b < ds@.len() implies (#[trigger] ds@[a]).column_name@ != (#[trigger] ds@[b]).column_name@ by {
            if b == d0.len() {
                assert(d0[a].column_name@ != ds@[b].column_name@);
            }
        }
    }
}

/// Does column `i` of an operation get a bloom delta: it has a non-null
/// value that changed (when the old values are given).
pub open spec fn bloom_column(columns: Seq<String>, values: Seq<Value>, olds: Option<Seq<Value>>, i: int) -> bool {
    &&& 0 <= i < columns.len()
    &&& i < values.len()
    &&& !(values[i]@ is Null)
    &&& match olds {
        Some(o) => !(i < o.len() && o[i]@ == values[i]@),
        None => true,
    }
}

/// The old values of an operation, if given.
pub open spec fn opt_values(o: Option<&[Value]>) -> Option<Seq<Value>> {
    match o {
        Some(s) => Some(s@),
        None => None,
    }
}

/// The shape of a value's bloom delta: one row, and one slot per hash round
/// of some hash pair.
pub open spec fn delta_shape(d: BloomFilterDelta, config: FilterIndexConfig) -> bool {
    &&& d.rows_added == 1
    &&& exists|h1: u64, h2: u64| #[trigger] slots_of(d.bits_to_set@, h1, h2, config.num_hashes, config.bloom_bits)
}

/// Some column before `n` that gets a bloom delta is named `name`.
pub open spec fn from_column(columns: Seq<String>, values: Seq<Value>, olds: Option<Seq<Value>>, n: int, name: Seq<char>) -> bool {
    exists|q: int| 0 <= q < n && #[trigger] bloom_column(columns, values, olds, q) && columns[q]@ == name
}

/// The deltas `ds` are those of the columns before `n` that get one: each
/// delta is of such a column, and each such column has a delta.
pub open spec fn covers_columns(ds: Seq<BloomFilterDelta>, columns: Seq<String>, values: Seq<Value>, olds: Option<Seq<Value>>, n: int) -> bool {
    &&& forall|j: int| 0 <= j < ds.len() ==> from_column(columns, values, olds, n, (#[trigger] ds[j]).column_name@)
    &&& forall|q: int| 0 <= q < n && #[trigger] bloom_column(columns, values, olds, q) ==> names_column(ds, columns[q]@)
}

proof fn lemma_cover_skip(ds: Seq<BloomFilterDelta>, columns: Seq<String>, values: Seq<Value>, olds: Option<Seq<Value>>, i: int)
    requires
        0 <= i,
        covers_columns(ds, columns, values, olds, i),
        !bloom_column(columns, values, olds, i),
    ensures
        covers_columns(ds, columns, values, olds, i + 1),
{
    assert forall|j: int| 0 <= j < ds.len() implies from_column(columns, values, olds, i + 1, (#[trigger] ds[j]).column_name@) by {
        assert(from_column(columns, values, olds, i, ds[j].column_name@));
        let q = choose|q: int| 0 <= q < i && #[trigger] bloom_column(columns, values, olds, q) && columns[q]@ == ds[j].column_name@;
        assert(bloom_column(columns, values, olds, q));
    }
}

proof fn lemma_cover_put(
    r0: Seq<BloomFilterDelta>,
    r: Seq<BloomFilterDelta>,
    d: BloomFilterDelta,
    columns: Seq<String>,
    values: Seq<Value>,
    olds: Option<Seq<Value>>,
    i: int,
)
    requires
        0 <= i,
        covers_columns(r0, columns, values, olds, i),
        bloom_column(columns, values, olds, i),
        d.column_name@ == columns[i]@,
        names_column(r0, d.column_name@) ==> r == r0.update(name_index(r0, d.column_name@), d),
        !names_column(r0, d.column_name@) ==> r == r0.push(d),
    ensures
        covers_columns(r, columns, values, olds, i + 1),
        forall|j: int| 0 <= j < r.len() ==> #[trigger] r[j] == d || (exists|m: int| 0 <= m < r0.len() && r[j] == r0[m]),
{
    let name = d.column_name@;
    let k = if names_column(r0, name) { name_index(r0, name) } else { r0.len() as int };
    assert(0 <= k <= r0.len());
    assert(r.len() == r0.len() || r.len() == r0.len() + 1);
    assert(0 <= k < r.len() && r[k] == d);
    assert forall|j: int| 0 <= j < r.len() && j != k implies #[trigger] r[j] == r0[j] by {}
    assert forall|j: int| 0 <= j < r.len() implies from_column(columns, values, olds, i + 1, (#[trigger] r[j]).column_name@) by {
        if j == k {
            assert(bloom_column(columns, values, olds, i));
        } else {
            assert(r[j] == r0[j]);
            assert(from_column(columns, values, olds, i, r0[j].column_name@));
            let q = choose|q: int| 0 <= q < i && #[trigger] bloom_column(columns, values, olds, q) && columns[q]@ == r0[j].column_name@;
            assert(bloom_column(columns, values, olds, q));
        }
    }
    assert forall|q: int| 0 <= q < i + 1 && #[trigger] bloom_column(columns, values, olds, q) implies names_column(r, columns[q]@) by {
        if q == i {
            assert(r[k].column_name@ == columns[q]@);
        } else {
            assert(names_column(r0, columns[q]@));
            let j = name_index(r0, columns[q]@);
            if j == k {
                assert(r[k].column_name@ == columns[q]@);
            } else {
                assert(r[j] == r0[j]);
            }
        }
    }
    assert forall|j: int| 0 <= j < r.len() implies #[trigger] r[j] == d || (exists|m: int| 0 <= m < r0.len() && r[j] == r0[m]) by {
        if j != k {
            assert(r[j] == r0[j]);
        }
    }
}

impl FilterIndexDeltaTracker {
    /// The bloom deltas of an operation's values: one per column with a
    /// non-null value (that changed, when the old values are given), each
    /// the slots of the value's hash pair and one row.
    fn op_blooms(&self, columns: &[String], values: &[Value], old_values: Option<&[Value]>) -> (r: Vec<BloomFilterDelta>)
        requires
            self.wf(),
        ensures
            op_blooms_ok(r@),
            forall|j: int| 0 <= j < r@.len() ==> delta_shape(#[trigger] r@[j], self.config_spec()),
            covers_columns(r@, columns@, values@, opt_values(old_values), columns@.len() as int),
    {
        let ghost olds = opt_values(old_values);
        let mut r: Vec<BloomFilterDelta> = Vec::new();
        let mut i: usize = 0;
        while i < columns.len()
            invariant
                self.wf(),
                i <= columns@.len(),
                olds == opt_values(old_values),
                op_blooms_ok(r@),
                forall|j: int| 0 <= j < r@.len() ==> delta_shape(#[trigger] r@[j], self.config_spec()),
                covers_columns(r@, columns@, values@, olds, i as int),
            decreases columns@.len() - i,
        {
            let mut put = false;
            if i < values.len() {
                let value = &values[i];
                let changed = match old_values {
                    Some(olds) => !(i < olds.len() && olds[i].same_as(value)),
                    None => true,
                };
                if changed && !value.is_null() {
                    let d = self.compute_bloom_delta(columns[i].as_str(), value);
                    let ghost r0 = r@;
                    proof {
                        assert(bloom_column(columns@, values@, olds, i as int));
                        assert(delta_shape(d, self.config_spec()));
                    }
                    put_bloom(&mut r, d);
                    proof {
                        lemma_cover_put(r0, r@, d, columns@, values@, olds, i as int);
                        assert forall|j: int| 0 <= j < r@.len() implies delta_shape(#[trigger] r@[j], self.config_spec()) by {
                            if r@[j] != d {
                                let m = choose|m: int| 0 <= m < r0.len() && r@[j] == r0[m];
                                assert(delta_shape(r0[m], self.config_spec()));
                            }
                        }
                    }
                    put = true;
                }
            }
            if !put {
                proof {
                    assert(!bloom_column(columns@, values@, olds, i as int));
                    lemma_cover_skip(r@, columns@, values@, olds, i as int);
                }
            }
            i = i + 1;
        }
        r
    }

    /// The zone delta of an operation: each column's value, one row.
    fn op_zone(&self, row_id: u64, delta_type: FilterDeltaType, columns: &[String], values: &[Value]) -> (z: ZoneMapDelta)
        ensures
            z.rows_affected == 1,
            z.block_id == zone_block_of_spec(row_id),
            z.delta_type == delta_type,
    {
        let mut z = ZoneMapDelta::new(zone_block_of(row_id), delta_type);
        let mut i: usize = 0;
        while i < columns.len()
            invariant
                i <= columns@.len(),
                z.rows_affected == 0,
                z.block_id == zone_block_of_spec(row_id),
                z.delta_type == delta_type,
            decreases columns@.len() - i,
        {
            if i < values.len() {
                z.add_column_update(columns[i].as_str(), &values[i]);
            }
            i = i + 1;
        }
        z.rows_affected = 1;
        z
    }

    /// Where the table is among the buffered ones.
    fn find_table(&self, table: &str) -> (r: Option<usize>)
        requires
            self.wf(),
        ensures
            r is Some <==> self.buffered_tables().contains(table@),
            r matches Some(i) ==> i < self.buffered_tables().len() && i == position(self.buffered_tables(), table@),
    {
        let mut i: usize = 0;
        while i < self.tables.len()
            invariant
                self.wf(),
                i <= self.tables@.len(),
                forall|j: int| 0 <= j < i ==> self.buffered_tables()[j] != table@,
            decreases self.tables@.len() - i,
        {
            if str_eq(self.tables[i].name.as_str(), table) {
                proof {
                    lemma_position(self.buffered_tables(), i as int);
                }
                return Some(i);
            }
            i = i + 1;
        }
        None
    }
}

/// The zone map block of a row.
pub open spec fn zone_block_of_spec(row_id: u64) -> u64 {
    row_id / 1000
}

/// Where the column's delta is in the list.
fn find_bloom(ds: &Vec<BloomFilterDelta>, name: &str) -> (r: Option<usize>)
    ensures
        match r {
            Some(j) => j < ds@.len() && ds@[j as int].column_name@ == name@,
            None => forall|q: int| 0 <= q < ds@.len() ==> (#[trigger] ds@[q]).column_name@ != name@,
        },
{
    let mut j: usize = 0;
    while j < ds.len()
        invariant
            j <= ds@.len(),
            forall|q: int| 0 <= q < j ==> (#[trigger] ds@[q]).column_name@ != name@,
        decreases ds@.len() - j,
    {
        if str_eq(ds[j].column_name.as_str(), name) {
            return Some(j);
        }
        j = j + 1;
    }
    None
}

/// Where the block's delta is in the list.
fn find_zone(zs: &Vec<ZoneMapDelta>, block_id: u64) -> (r: Option<usize>)
    ensures
        match r {
            Some(j) => j < zs@.len() && zs@[j as int].block_id == block_id,
            None => forall|q: int| 0 <= q < zs@.len() ==> (#[trigger] zs@[q]).block_id != block_id,
        },
{
    let mut j: usize = 0;
    while j < zs.len()
        invariant
            j <= zs@.len(),
            forall|q: int| 0 <= q < j ==> (#[trigger] zs@[q]).block_id != block_id,
        decreases zs@.len() - j,
    {
        if zs[j].block_id == block_id {
            return Some(j);
        }
        j = j + 1;
    }
    None
}

/// Folding in one more view extends the fold of a prefix by one step.
proof fn lemma_absorb_blooms_step(bs: Seq<BloomDeltaView>, vs: Seq<BloomDeltaView>, k: int)
    requires
        0 <= k < vs.len(),
    ensures
        absorb_blooms(bs, vs.take(k + 1)) == absorb_bloom(absorb_blooms(bs, vs.take(k)), vs[k]),
{
    assert(vs.take(k + 1).drop_last() =~= vs.take(k));
    assert(vs.take(k + 1).last() == vs[k]);
}

/// Folding a delta into a list that has its column merges it into that entry.
proof fn lemma_absorb_bloom_existing(b0: Seq<BloomFilterDelta>, j: int, e: BloomFilterDelta, d: BloomFilterDelta)
    requires
        forall|a: int, b: int| 0 <= a < b < b0.len() ==> (#[trigger] b0[a]).column_name@ != (#[trigger] b0[b]).column_name@,
        0 <= j < b0.len(),
        b0[j].column_name@ == d.column_name@,
        e.column_name@ == b0[j].column_name@,
        e.bits_to_set@ == b0[j].bits_to_set@ + d.bits_to_set@,
        e.rows_added == b0[j].rows_added + d.rows_added,
    ensures
        bloom_views(b0.update(j, e)) == absorb_bloom(bloom_views(b0), bloom_view(d)),
{
    let bs = bloom_views(b0);
    assert forall|a: int, b: int| 0 <= a < b < bs.len() implies bs[a].column != bs[b].column by {
        assert(bs[a] == bloom_view(b0[a]));
        assert(bs[b] == bloom_view(b0[b]));
    }
    assert(bs[j] == bloom_view(b0[j]));
    lemma_bloom_choice(bs, j, d.column_name@);
    assert(bloom_views(b0.update(j, e)) =~= bs.update(j, bloom_view(e)));
}

/// Folding a delta into a list without its column appends it.
proof fn lemma_absorb_bloom_new(b0: Seq<BloomFilterDelta>, e: BloomFilterDelta, d: BloomFilterDelta)
    requires
        forall|q: int| 0 <= q < b0.len() ==> (#[trigger] b0[q]).column_name@ != d.column_name@,
        bloom_view(e) == bloom_view(d),
    ensures
        bloom_views(b0.push(e)) == absorb_bloom(bloom_views(b0), bloom_view(d)),
{
    let bs = bloom_views(b0);
    assert(!exists|j: int| 0 <= j < bs.len() && bs[j].column == bloom_view(d).column) by {
        assert forall|j: int| 0 <= j < bs.len() implies bs[j].column != bloom_view(d).column by {
            assert(bs[j] == bloom_view(b0[j]));
        }
    }
    assert(bloom_views(b0.push(e)) =~= bs.push(bloom_view(e)));
}

/// Folding a zone delta into a list that has its block merges it into that entry.
proof fn lemma_absorb_zone_existing(z0: Seq<ZoneMapDelta>, j: int, e: ZoneMapDelta, z: ZoneMapDelta)
    requires
        forall|a: int, b: int| 0 <= a < b < z0.len() ==> (#[trigger] z0[a]).block_id != (#[trigger] z0[b]).block_id,
        0 <= j < z0.len(),
        z0[j].block_id == z.block_id,
        e.block_id == z0[j].block_id,
        e.delta_type == z0[j].delta_type,
        zone_view(e).updates == zone_view(z0[j]).updates + zone_view(z).updates,
        e.rows_affected == z0[j].rows_affected + z.rows_affected,
    ensures
        zone_views(z0.update(j, e)) == absorb_zone(zone_views(z0), zone_view(z)),
{
    let zs = zone_views(z0);
    assert forall|a: int, b: int| 0 <= a < b < zs.len() implies zs[a].block != zs[b].block by {
        assert(zs[a] == zone_view(z0[a]));
        assert(zs[b] == zone_view(z0[b]));
    }
    assert(zs[j] == zone_view(z0[j]));
    lemma_zone_choice(zs, j, z.block_id);
    assert(zone_views(z0.update(j, e)) =~= zs.update(j, zone_view(e)));
}

/// Folding a zone delta into a list without its block appends it.
proof fn lemma_absorb_zone_new(z0: Seq<ZoneMapDelta>, e: ZoneMapDelta, z: ZoneMapDelta)
    requires
        forall|q: int| 0 <= q < z0.len() ==> (#[trigger] z0[q]).block_id != z.block_id,
        zone_view(e) == zone_view(z),
    ensures
        zone_views(z0.push(e)) == absorb_zone(zone_views(z0), zone_view(z)),
{
    let zs = zone_views(z0);
    assert(!exists|j: int| 0 <= j < zs.len() && zs[j].block == zone_view(z).block) by {
        assert forall|j: int| 0 <= j < zs.len() implies zs[j].block != zone_view(z).block by {
            assert(zs[j] == zone_view(z0[j]));
        }
    }
    assert(zone_views(z0.push(e)) =~= zs.push(zone_view(e)));
}

/// Merge an operation's bloom deltas into a table's: each column's delta
/// takes the bits and the row.
fn merge_blooms(t: &mut TableBuffer, ds: &Vec<BloomFilterDelta>)
    requires
        op_blooms_ok(ds@),
        buffer_ok(*old(t)),
        old(t).delta_count < u64::MAX,
    ensures
        final(t).name == old(t).name,
        final(t).zones == old(t).zones,
        final(t).delta_count == old(t).delta_count,
        forall|i: int, j: int| 0 <= i < j < final(t).bloom@.len() ==> (#[trigger] final(t).bloom@[i]).column_name@ != (#[trigger] final(t).bloom@[j]).column_name@,
        forall|i: int| 0 <= i < final(t).bloom@.len() ==> (#[trigger] final(t).bloom@[i]).rows_added <= old(t).delta_count + 1,
        bloom_views(final(t).bloom@) == absorb_blooms(bloom_views(old(t).bloom@), bloom_views(ds@)),
{
    let ghost c = t.delta_count;
    proof {
        assert(bloom_views(ds@).take(0) =~= Seq::<BloomDeltaView>::empty());
    }
    let mut k: usize = 0;
    while k < ds.len()
        invariant
            op_blooms_ok(ds@),
            k <= ds@.len(),
            t.name == old(t).name,
            t.zones == old(t).zones,
            t.delta_count == c,
            c == old(t).delta_count,
            c < u64::MAX,
            bloom_views(t.bloom@) == absorb_blooms(bloom_views(old(t).bloom@), bloom_views(ds@).take(k as int)),
            forall|i: int, j: int| 0 <= i < j < t.bloom@.len() ==> (#[trigger] t.bloom@[i]).column_name@ != (#[trigger] t.bloom@[j]).column_name@,
            forall|i: int| 0 <= i < t.bloom@.len() ==> (#[trigger] t.bloom@[i]).rows_added <= c + 1,
            forall|i: int| #![trigger t.bloom@[i]]
                0 <= i < t.bloom@.len() && (forall|q: int| 0 <= q < k ==> (#[trigger] ds@[q]).column_name@ != t.bloom@[i].column_name@)
                    ==> t.bloom@[i].rows_added <= c,
        decreases ds@.len() - k,
    {
        let d = &ds[k];
        let ghost b0 = t.bloom@;
        proof {
            lemma_absorb_blooms_step(bloom_views(old(t).bloom@), bloom_views(ds@), k as int);
            assert(bloom_views(ds@)[k as int] == bloom_view(*d));
        }
        match find_bloom(&t.bloom, d.column_name.as_str()) {
            Some(j) => {
                proof {
                    assert forall|q: int| 0 <= q < k implies (#[trigger] ds@[q]).column_name@ != b0[j as int].column_name@ by {
                        assert(ds@[q].column_name@ != ds@[k as int].column_name@);
                    }
                }
                let mut e = t.bloom.remove(j);
                e.merge(d);
                t.bloom.insert(j, e);
                proof {
                    assert(t.bloom@ =~= b0.update(j as int, e));
                    lemma_absorb_bloom_existing(b0, j as int, e, *d);
                    assert forall|i: int| #![trigger t.bloom@[i]]
                        0 <= i < t.bloom@.len() && (forall|q: int| 0 <= q < k + 1 ==> (#[trigger] ds@[q]).column_name@ != t.bloom@[i].column_name@)
                            implies t.bloom@[i].rows_added <= c by {
                        assert(ds@[k as int].column_name@ != t.bloom@[i].column_name@);
                        assert(i != j);
                        assert forall|q: int| 0 <= q < k implies (#[trigger] ds@[q]).column_name@ != b0[i].column_name@ by {
                            assert(ds@[q].column_name@ != t.bloom@[i].column_name@);
                        }
                    }
                }
            },
            None => {
                let mut e = BloomFilterDelta::new(d.column_name.as_str());
                e.merge(d);
                t.bloom.push(e);
                proof {
                    assert(t.bloom@ =~= b0.push(e));
                    assert(e.bits_to_set@ =~= d.bits_to_set@);
                    lemma_absorb_bloom_new(b0, e, *d);
                    assert forall|i: int, j: int| 0 <= i < j < t.bloom@.len() implies (#[trigger] t.bloom@[i]).column_name@ != (#[trigger] t.bloom@[j]).column_name@ by {
                        if j == b0.len() {
                            assert(b0[i].column_name@ != d.column_name@);
                        }
                    }
                    assert forall|i: int| #![trigger t.bloom@[i]]
                        0 <= i < t.bloom@.len() && (forall|q: int| 0 <= q < k + 1 ==> (#[trigger] ds@[q]).column_name@ != t.bloom@[i].column_name@)
                            implies t.bloom@[i].rows_added <= c by {
                        if i == b0.len() {
                            assert(ds@[k as int].column_name@ == t.bloom@[i].column_name@);
                        } else {
                            assert forall|q: int| 0 <= q < k implies (#[trigger] ds@[q]).column_name@ != b0[i].column_name@ by {
                                assert(ds@[q].column_name@ != t.bloom@[i].column_name@);
                            }
                        }
                    }
                }
            },
        }
        k = k + 1;
    }
    proof {
        assert(bloom_views(ds@).take(ds@.len() as int) =~= bloom_views(ds@));
    }
}

/// Merge an operation's zone delta into a table's: the block's delta takes
/// the column updates and the row.
fn merge_zone(t: &mut TableBuffer, z: &ZoneMapDelta)
    requires
        forall|i: int, j: int| 0 <= i < j < old(t).zones@.len() ==> (#[trigger] old(t).zones@[i]).block_id != (#[trigger] old(t).zones@[j]).block_id,
        forall|i: int| 0 <= i < old(t).zones@.len() ==> (#[trigger] old(t).zones@[i]).rows_affected <= old(t).delta_count,
        old(t).delta_count < u64::MAX,
        z.rows_affected == 1,
    ensures
        final(t).name == old(t).name,
        final(t).bloom == old(t).bloom,
        final(t).delta_count == old(t).delta_count,
        forall|i: int, j: int| 0 <= i < j < final(t).zones@.len() ==> (#[trigger] final(t).zones@[i]).block_id != (#[trigger] final(t).zones@[j]).block_id,
        forall|i: int| 0 <= i < final(t).zones@.len() ==> (#[trigger] final(t).zones@[i]).rows_affected <= old(t).delta_count + 1,
        zone_views(final(t).zones@) == absorb_zone(zone_views(old(t).zones@), zone_view(*z)),
{
    let ghost z0 = t.zones@;
    let found = find_zone(&t.zones, z.block_id);
    let (mut e, j) = match found {
        Some(j) => (t.zones.remove(j), j),
        None => (ZoneMapDelta::new(z.block_id, z.delta_type), t.zones.len()),
    };
    let ghost e0 = e;
    let ghost n0 = e0.column_updates@.len();
    let mut u: usize = 0;
    while u < z.column_updates.len()
        invariant
            e.block_id == e0.block_id,
            e.delta_type == e0.delta_type,
            e.rows_affected == e0.rows_affected,
            e0.block_id == z.block_id,
            e.rows_affected <= old(t).delta_count,
            u <= z.column_updates@.len(),
            n0 == e0.column_updates@.len(),
            e.column_updates@.len() == n0 + u,
            forall|i: int| 0 <= i < n0 ==> #[trigger] e.column_updates@[i] == e0.column_updates@[i],
            forall|i: int| 0 <= i < u ==> zone_update_view(#[trigger] e.column_updates@[n0 + i]) == zone_update_view(z.column_updates@[i]),
        decreases z.column_updates@.len() - u,
    {
        let c = z.column_updates[u].duplicate();
        e.column_updates.push(c);
        u = u + 1;
    }
    proof {
        assert(zone_view(e).updates =~= zone_view(e0).updates + zone_view(*z).updates) by {
            assert forall|i: int| 0 <= i < e.column_updates@.len() implies #[trigger] zone_view(e).updates[i] == (zone_view(e0).updates + zone_view(*z).updates)[i] by {
                if i < n0 {
                    assert(e.column_updates@[i] == e0.column_updates@[i]);
                } else {
                    assert(zone_update_view(e.column_updates@[n0 + (i - n0)]) == zone_update_view(z.column_updates@[i - n0]));
                }
            }
        }
    }
    e.rows_affected = e.rows_affected + z.rows_affected;
    t.zones.insert(j, e);
    proof {
        if found is Some {
            assert(t.zones@ =~= z0.update(j as int, e));
            lemma_absorb_zone_existing(z0, j as int, e, *z);
        } else {
            assert(t.zones@ =~= z0.push(e));
            assert(zone_view(e0).updates =~= Seq::<(Seq<char>, ValueView, bool)>::empty());
            assert(zone_view(e).updates =~= zone_view(*z).updates);
            lemma_absorb_zone_new(z0, e, *z);
            assert forall|a: int, b: int| 0 <= a < b < t.zones@.len() implies (#[trigger] t.zones@[a]).block_id != (#[trigger] t.zones@[b]).block_id by {
                if b == z0.len() {
                    assert(z0[a].block_id != z.block_id);
                }
            }
        }
    }
}

proof fn lemma_total_prefix(cs: Seq<u64>, i: int)
    requires
        0 <= i < cs.len(),
    ensures
        total(cs.subrange(0, i + 1)) == total(cs.subrange(0, i)) + cs[i],
        total(cs.subrange(0, i + 1)) <= total(cs),
    decreases cs.len() - i,
{
    assert(cs.subrange(0, i + 1).drop_last() =~= cs.subrange(0, i));
    if i + 1 == cs.len() {
        assert(cs.subrange(0, i + 1) =~= cs);
    } else {
        lemma_total_prefix(cs, i + 1);
    }
}

/// The tables (of the first `n`) whose delta count reached the threshold, in order.
pub open spec fn over_threshold(names: Seq<Seq<char>>, counts: Seq<u64>, threshold: u64, n: int) -> Seq<Seq<char>>
    decreases n,
{
    if n <= 0 {
        Seq::empty()
    } else if counts[n - 1] >= threshold {
        over_threshold(names, counts, threshold, n - 1).push(names[n - 1])
    } else {
        over_threshold(names, counts, threshold, n - 1)
    }
}

/// A table is due for consolidation exactly when its buffered delta count
/// has reached the threshold: a name is in the list of the first `n` tables
/// over the threshold if and only if one of those tables carries that name
/// with a count of at least `threshold`.
pub proof fn law_consolidation_by_threshold(names: Seq<Seq<char>>, counts: Seq<u64>, threshold: u64, n: int)
    requires
        0 <= n <= names.len(),
        names.len() == counts.len(),
    ensures
        forall|x: Seq<char>| #[trigger] over_threshold(names, counts, threshold, n).contains(x) <==> exists|i: int|
            0 <= i < n && names[i] == x && counts[i] >= threshold,
    decreases n,
{
    if n > 0 {
        law_consolidation_by_threshold(names, counts, threshold, n - 1);
        let prev = over_threshold(names, counts, threshold, n - 1);
        assert forall|x: Seq<char>| #[trigger] over_threshold(names, counts, threshold, n).contains(x) <==> exists|i: int|
            0 <= i < n && names[i] == x && counts[i] >= threshold by {
            if over_threshold(names, counts, threshold, n).contains(x) {
                if prev.contains(x) {
                    let i = choose|i: int| 0 <= i < n - 1 && names[i] == x && counts[i] >= threshold;
                    assert(0 <= i < n && names[i] == x && counts[i] >= threshold);
                } else {
                    assert(counts[n - 1] >= threshold);
                    let q = prev.push(names[n - 1]);
                    let k = choose|k: int| 0 <= k < q.len() && #[trigger] q[k] == x;
                    if k < prev.len() {
                        assert(prev[k] == x);
                    }
                    assert(names[n - 1] == x);
                }
            }
            if exists|i: int| 0 <= i < n && names[i] == x && counts[i] >= threshold {
                let i = choose|i: int| 0 <= i < n && names[i] == x && counts[i] >= threshold;
                if i < n - 1 {
                    assert(prev.contains(x));
                    if counts[n - 1] >= threshold {
                        let k = choose|k: int| 0 <= k < prev.len() && #[trigger] prev[k] == x;
                        assert(prev.push(names[n - 1])[k] == x);
                    }
                } else {
                    assert(prev.push(names[n - 1])[prev.len() as int] == x);
                }
            }
        }
    }
}

impl FilterIndexDeltaTracker {
    /// One more operation on `table` was recorded in `after`: its counters,
    /// its table's delta count and the pending deltas moved on by one.
    pub open spec fn recorded(before: &Self, after: &Self, table: Seq<char>, row_id: u64, delta_type: FilterDeltaType) -> bool {
        &&& after.ops() == before.ops() + 1
        &&& after.buffered_tables() == bump_names(before.buffered_tables(), table)
        &&& after.counts() == bump_counts(before.buffered_tables(), before.counts(), table)
        &&& after.pending().len() == pending_after(before.pending().len(), before.config_spec().max_buffered_deltas)
        &&& after.pending().last().seq == before.ops()
        &&& after.pending().last().table_name@ == table
        &&& after.pending().last().row_id == row_id
        &&& after.pending().last().delta_type == delta_type
    }

    /// Nothing recorded: the buffers, counters and pending deltas are as they were.
    pub open spec fn untouched(before: &Self, after: &Self) -> bool {
        &&& after.ops() == before.ops()
        &&& after.buffered_tables() == before.buffered_tables()
        &&& after.counts() == before.counts()
        &&& after.pending() == before.pending()
    }

    /// What no operation changes.
    pub open spec fn same_settings(before: &Self, after: &Self) -> bool {
        &&& after.suspended() == before.suspended()
        &&& after.reasons() == before.reasons()
        &&& after.enabled_flag() == before.enabled_flag()
        &&& after.threshold() == before.threshold()
        &&& after.config_spec() == before.config_spec()
    }

    /// Record an operation's deltas: count it, buffer its bloom and zone
    /// deltas under its table, and keep it pending.
    fn record(&mut self, table: &str, row_id: u64, delta_type: FilterDeltaType, blooms: Vec<BloomFilterDelta>, zone: Option<ZoneMapDelta>)
        requires
            old(self).wf(),
            old(self).ops() < u64::MAX,
            op_blooms_ok(blooms@),
            zone matches Some(z) ==> z.rows_affected == 1,
        ensures
            final(self).wf(),
            Self::recorded(old(self), final(self), table@, row_id, delta_type),
            Self::same_settings(old(self), final(self)),
    {
        let seq = self.delta_seq;
        self.delta_seq = self.delta_seq + 1;
        self.total_operations = self.total_operations + 1;
        let ghost names0 = self.buffered_tables();
        let ghost counts0 = self.counts();
        let ghost tables0 = self.tables@;
        let idx = match self.find_table(table) {
            Some(i) => i,
            None => {
                self.tables.push(TableBuffer { name: String::from_str(table), bloom: Vec::new(), zones: Vec::new(), delta_count: 0 });
                proof {
                    assert(self.counts() =~= counts0.push(0));
                    lemma_total_push(counts0, 0);
                }
                self.tables.len() - 1
            },
        };
        let ghost tables1 = self.tables@;
        proof {
            assert(self.counts()[idx as int] == tables1[idx as int].delta_count);
            lemma_total_update(self.counts(), idx as int, 0);
            assert(buffer_ok(tables1[idx as int]));
        }
        let mut t = self.tables.remove(idx);
        merge_blooms(&mut t, &blooms);
        match &zone {
            Some(z) => merge_zone(&mut t, z),
            None => {},
        }
        t.delta_count = t.delta_count + 1;
        let ghost t1 = t;
        self.tables.insert(idx, t);
        proof {
            assert(self.tables@ =~= tables1.update(idx as int, t1));
            assert(buffer_ok(t1));
            assert forall|i: int| 0 <= i < self.tables@.len() implies buffer_ok(#[trigger] self.tables@[i]) by {
                if i != idx {
                    assert(self.tables@[i] == tables1[i]);
                    if i < tables0.len() {
                        assert(tables1[i] == tables0[i]);
                    }
                }
            }
            let c1 = tables1.map_values(|t: TableBuffer| t.delta_count);
            assert(self.counts() =~= c1.update(idx as int, t1.delta_count));
            lemma_total_update(c1, idx as int, t1.delta_count);
            let n1 = tables1.map_values(|t: TableBuffer| t.name@);
            assert(self.buffered_tables() =~= n1);
            if names0.contains(table@) {
                assert(tables1 == tables0);
                assert(n1 =~= names0);
                assert(c1 =~= counts0);
                assert(self.buffered_tables() == bump_names(names0, table@));
                assert(self.counts() =~= bump_counts(names0, counts0, table@));
            } else {
                assert(n1 =~= names0.push(table@));
                assert(c1 =~= counts0.push(0));
                assert(self.counts() =~= counts0.push(1));
                assert(distinct(self.buffered_tables())) by {
                    assert forall|a: int, b: int| 0 <= a < b < n1.len() implies n1[a] != n1[b] by {
                        if b == names0.len() {
                            assert(names0.contains(names0[a]));
                        }
                    }
                }
            }
        }
        let mut delta = FilterDelta::new(seq, table, row_id, delta_type);
        let mut blooms = blooms;
        while blooms.len() > 0
            invariant
                delta.seq == seq,
                delta.table_name@ == table@,
                delta.row_id == row_id,
                delta.delta_type == delta_type,
            decreases blooms@.len(),
        {
            let b = blooms.pop().unwrap();
            delta.bloom_deltas.insert(b.column_name.clone(), b);
        }
        delta.zone_delta = zone;
        let ghost p0 = self.pending_deltas@;
        self.pending_deltas.push(delta);
        trim_pending(&mut self.pending_deltas, self.config.max_buffered_deltas);
        proof {
            let p1 = p0.push(delta);
            if p1.len() > self.config.max_buffered_deltas {
                assert(self.pending_deltas@.last() == p1.last());
            }
        }
    }

    /// Record an insert: the bloom deltas of its non-null values and the
    /// zone delta of its values, unless tracking is off or the table is
    /// suspended (then a suspended table counts the row).
    pub fn on_insert(&mut self, table: &str, row_id: u64, columns: &[String], values: &[Value])
        requires
            old(self).wf(),
            old(self).ops() < u64::MAX,
        ensures
            final(self).wf(),
            Self::same_settings(old(self), final(self)),
            old(self).tracks(table@) ==> Self::recorded(old(self), final(self), table@, row_id, FilterDeltaType::Insert),
            !old(self).tracks(table@) ==> Self::untouched(old(self), final(self)),
    {
        if !self.is_enabled() || self.is_suspended(table) {
            self.record_suspended_row(table);
            return;
        }
        let blooms = if self.config.enable_bloom {
            self.op_blooms(columns, values, None)
        } else {
            Vec::new()
        };
        let zone = if self.config.enable_zone_map {
            Some(self.op_zone(row_id, FilterDeltaType::Insert, columns, values))
        } else {
            None
        };
        self.record(table, row_id, FilterDeltaType::Insert, blooms, zone);
    }

    /// Record an update: the bloom deltas of the non-null values that
    /// changed and the zone delta of the new values.
    pub fn on_update(&mut self, table: &str, row_id: u64, columns: &[String], old_values: &[Value], new_values: &[Value])
        requires
            old(self).wf(),
            old(self).ops() < u64::MAX,
        ensures
            final(self).wf(),
            Self::same_settings(old(self), final(self)),
            old(self).tracks(table@) ==> Self::recorded(old(self), final(self), table@, row_id, FilterDeltaType::Update),
            !old(self).tracks(table@) ==> Self::untouched(old(self), final(self)),
    {
        if !self.is_enabled() || self.is_suspended(table) {
            self.record_suspended_row(table);
            return;
        }
        let blooms = if self.config.enable_bloom {
            self.op_blooms(columns, new_values, Some(old_values))
        } else {
            Vec::new()
        };
        let zone = if self.config.enable_zone_map {
            Some(self.op_zone(row_id, FilterDeltaType::Update, columns, new_values))
        } else {
            None
        };
        self.record(table, row_id, FilterDeltaType::Update, blooms, zone);
    }

    /// Record a delete: only the zone delta of its values (bloom filters
    /// cannot forget a value).
    pub fn on_delete(&mut self, table: &str, row_id: u64, columns: &[String], values: &[Value])
        requires
            old(self).wf(),
            old(self).ops() < u64::MAX,
        ensures
            final(self).wf(),
            Self::same_settings(old(self), final(self)),
            old(self).tracks(table@) ==> Self::recorded(old(self), final(self), table@, row_id, FilterDeltaType::Delete),
            !old(self).tracks(table@) ==> Self::untouched(old(self), final(self)),
    {
        if !self.is_enabled() || self.is_suspended(table) {
            self.record_suspended_row(table);
            return;
        }
        let zone = if self.config.enable_zone_map {
            Some(self.op_zone(row_id, FilterDeltaType::Delete, columns, values))
        } else {
            None
        };
        self.record(table, row_id, FilterDeltaType::Delete, Vec::new(), zone);
    }

    /// The tables whose buffered delta count reached the consolidation threshold.
    pub fn tables_needing_consolidation(&self) -> (r: Vec<String>)
        ensures
            r@.map_values(|s: String| s@) == over_threshold(
                self.buffered_tables(),
                self.counts(),
                self.config_spec().delta_threshold,
                self.buffered_tables().len() as int,
            ),
            forall|x: Seq<char>| #[trigger] crate::dump_manager::name_views(r@).contains(x) <==> exists|i: int|
                0 <= i < self.buffered_tables().len() && self.buffered_tables()[i] == x && self.counts()[i]
                    >= self.config_spec().delta_threshold,
    {
        let ghost names = self.buffered_tables();
        let ghost counts = self.counts();
        let mut r: Vec<String> = Vec::new();
        let mut i: usize = 0;
        while i < self.tables.len()
            invariant
                names == self.buffered_tables(),
                counts == self.counts(),
                i <= self.tables@.len(),
                r@.map_values(|s: String| s@) == over_threshold(names, counts, self.config.delta_threshold, i as int),
            decreases self.tables@.len() - i,
        {
            if self.tables[i].delta_count >= self.config.delta_threshold {
                let ghost r0 = r@;
                r.push(self.tables[i].name.clone());
                proof {
                    assert(r@.map_values(|s: String| s@) =~= r0.map_values(|s: String| s@).push(names[i as int]));
                }
            }
            i = i + 1;
        }
        proof {
            law_consolidation_by_threshold(names, counts, self.config.delta_threshold, names.len() as int);
        }
        r
    }

    /// Drop a table's buffered deltas (no-op for a table without any).
    fn drop_table(&mut self, table: &str) -> (r: Option<TableBuffer>)
        requires
            old(self).wf(),
        ensures
            final(self).wf(),
            Self::same_settings(old(self), final(self)),
            final(self).ops() == old(self).ops(),
            final(self).pending() == old(self).pending(),
            r is Some <==> old(self).buffered_tables().contains(table@),
            r matches Some(t) ==> ({
                let p = position(old(self).buffered_tables(), table@);
                &&& t.delta_count == old(self).counts()[p]
                &&& final(self).buffered_tables() == old(self).buffered_tables().remove(p)
                &&& final(self).counts() == old(self).counts().remove(p)
            }),
            r is None ==> final(self).buffered_tables() == old(self).buffered_tables() && final(self).counts() == old(self).counts(),
    {
        let ghost tables0 = self.tables@;
        let ghost names0 = self.buffered_tables();
        let ghost counts0 = self.counts();
        match self.find_table(table) {
            None => None,
            Some(i) => {
                let t = self.tables.remove(i);
                proof {
                    assert(self.tables@ =~= tables0.remove(i as int));
                    assert(self.buffered_tables() =~= names0.remove(i as int));
                    assert(self.counts() =~= counts0.remove(i as int));
                    lemma_total_remove(counts0, i as int);
                    assert forall|k: int| 0 <= k < self.tables@.len() implies buffer_ok(#[trigger] self.tables@[k]) by {
                        let k0 = if k < i { k } else { k + 1 };
                        assert(self.tables@[k] == tables0[k0]);
                    }
                    assert(distinct(self.buffered_tables())) by {
                        assert forall|a: int, b: int| 0 <= a < b < self.buffered_tables().len() implies self.buffered_tables()[a] != self.buffered_tables()[b] by {
                            let a0 = if a < i { a } else { a + 1 };
                            let b0 = if b < i { b } else { b + 1 };
                            assert(self.buffered_tables()[a] == names0[a0] && self.buffered_tables()[b] == names0[b0]);
                        }
                    }
                }
                Some(t)
            },
        }
    }

    /// Hand over a table's buffered deltas for consolidation, removing them.
    pub fn get_table_deltas(&mut self, table: &str) -> (r: Option<TableFilterDeltas>)
        requires
            old(self).wf(),
        ensures
            final(self).wf(),
            Self::same_settings(old(self), final(self)),
            final(self).ops() == old(self).ops(),
            final(self).pending() == old(self).pending(),
            r is Some <==> old(self).buffered_tables().contains(table@),
            r matches Some(d) ==> ({
                let p = position(old(self).buffered_tables(), table@);
                &&& d.delta_count == old(self).counts()[p]
                &&& d.last_flush == 0
                &&& final(self).buffered_tables() == old(self).buffered_tables().remove(p)
                &&& final(self).counts() == old(self).counts().remove(p)
            }),
            r is None ==> final(self).buffered_tables() == old(self).buffered_tables() && final(self).counts() == old(self).counts(),
    {
        match self.drop_table(table) {
            None => None,
            Some(t) => {
                let TableBuffer { name: _, bloom, zones, delta_count } = t;
                let mut d = TableFilterDeltas::new();
                d.delta_count = delta_count;
                let mut bloom = bloom;
                while bloom.len() > 0
                    invariant
                        d.delta_count == delta_count,
                        d.last_flush == 0,
                    decreases bloom@.len(),
                {
                    let b = bloom.pop().unwrap();
                    d.bloom_deltas.insert(b.column_name.clone(), b);
                }
                let mut zones = zones;
                while zones.len() > 0
                    invariant
                        d.delta_count == delta_count,
                        d.last_flush == 0,
                    decreases zones@.len(),
                {
                    let z = zones.pop().unwrap();
                    d.zone_deltas.insert(z.block_id, z);
                }
                Some(d)
            },
        }
    }

    /// Drop a table's buffered deltas: the table's filters are to be rebuilt
    /// after a bulk operation.
    pub fn mark_for_rebuild(&mut self, table: &str, rows_affected: u64)
        requires
            old(self).wf(),
        ensures
            final(self).wf(),
            Self::same_settings(old(self), final(self)),
            final(self).ops() == old(self).ops(),
            final(self).pending() == old(self).pending(),
            !old(self).buffered_tables().contains(table@) ==> final(self).buffered_tables() == old(self).buffered_tables()
                && final(self).counts() == old(self).counts(),
            old(self).buffered_tables().contains(table@) ==> final(self).buffered_tables() == old(self).buffered_tables().remove(
                position(old(self).buffered_tables(), table@),
            ) && final(self).counts() == old(self).counts().remove(position(old(self).buffered_tables(), table@)),
    {
        let _ = self.drop_table(table);
    }

    /// Hand over the pending deltas, leaving none.
    pub fn take_pending_deltas(&mut self) -> (r: Vec<FilterDelta>)
        requires
            old(self).wf(),
        ensures
            final(self).wf(),
            r@ == old(self).pending(),
            final(self).pending() == Seq::<FilterDelta>::empty(),
            Self::same_settings(old(self), final(self)),
            final(self).ops() == old(self).ops(),
            final(self).buffered_tables() == old(self).buffered_tables(),
            final(self).counts() == old(self).counts(),
    {
        let mut out: Vec<FilterDelta> = Vec::new();
        std::mem::swap(&mut out, &mut self.pending_deltas);
        out
    }

    /// The tracker's counters.
    pub fn stats(&self) -> (s: FilterDeltaStats)
        requires
            self.wf(),
        ensures
            s.total_operations == self.ops(),
            s.current_seq == self.ops(),
            s.tables_tracked == self.buffered_tables().len(),
            s.pending_deltas == self.pending().len(),
            s.total_buffered_deltas == total(self.counts()),
            s.suspended_tables == self.suspended().len(),
            s.enabled == self.enabled_flag(),
    {
        let ghost counts = self.counts();
        let mut sum: u64 = 0;
        let mut i: usize = 0;
        while i < self.tables.len()
            invariant
                self.wf(),
                counts == self.counts(),
                i <= self.tables@.len(),
                sum == total(counts.subrange(0, i as int)),
            decreases self.tables@.len() - i,
        {
            proof {
                lemma_total_prefix(counts, i as int);
            }
            sum = sum + self.tables[i].delta_count;
            i = i + 1;
        }
        proof {
            assert(counts.subrange(0, counts.len() as int) =~= counts);
        }
        FilterDeltaStats {
            total_operations: self.total_operations,
            current_seq: self.delta_seq,
            tables_tracked: self.tables.len(),
            pending_deltas: self.pending_deltas.len(),
            total_buffered_deltas: sum,
            suspended_tables: self.suspended_tables.len(),
            enabled: self.enabled,
        }
    }
}

/// The deltas buffered over all tables never outnumber the operations recorded.
pub proof fn law_buffered_within_ops(t: &FilterIndexDeltaTracker)
    requires
        t.wf(),
    ensures
        total(t.counts()) <= t.ops(),
{
}

} // verus!
