use heliosdb_lite::filter_delta::{
    bloom_delta_for, bloom_slots, trim_pending, zone_block_of, BloomFilterDelta, FilterDelta, FilterDeltaType,
    FilterIndexConfig, TableFilterDeltas, ZoneMapDelta, DEFAULT_BULK_LOAD_THRESHOLD,
};
use heliosdb_lite::value::Value;

#[test]
fn bloom_delta_for_hash_pair() {
    let config = FilterIndexConfig::default();
    let delta = bloom_delta_for("col", 42, 7, &config);

    assert!(!delta.bits_to_set.is_empty());
    assert_eq!(delta.rows_added, 1);
}

#[test]
fn table_deltas_consolidation_threshold() {
    let mut deltas = TableFilterDeltas::new();
    for _ in 0..10 {
        deltas.delta_count += 1;
    }
    assert!(deltas.needs_consolidation(5));
    deltas.clear();
    assert!(!deltas.needs_consolidation(5));
    assert_eq!(deltas.delta_count, 0);
}

#[test]
fn filter_config_defaults() {
    let c = FilterIndexConfig::default();
    assert_eq!(c.num_hashes, 7);
    assert_eq!(c.bloom_bits, 1_000_000);
    assert_eq!(c.delta_threshold, 1000);
    assert_eq!(c.max_buffered_deltas, 10000);
    assert_eq!(c.bulk_load_threshold, DEFAULT_BULK_LOAD_THRESHOLD);
}

#[test]
fn bloom_slots_follow_double_hashing() {
    let slots = bloom_slots(3, 5, 3, 100);
    assert_eq!(slots, vec![(0, 1u64 << 15), (0, 1u64 << 20), (0, 1u64 << 25)]);
    let wrap = bloom_slots(u64::MAX, 2, 2, 1000);
    assert_eq!(wrap.len(), 2);
    assert_eq!(wrap[1], (0, 1));
}

#[test]
fn bloom_delta_merge_concatenates() {
    let mut a = BloomFilterDelta::new("c");
    let b = bloom_delta_for("c", 1, 1, &FilterIndexConfig::default());
    a.merge(&b);
    a.merge(&b);
    assert_eq!(a.bits_to_set.len(), 14);
    assert_eq!(a.rows_added, 2);
    assert_eq!(a.column_name, "c");
}

#[test]
fn zone_deltas_and_pending_trim() {
    let mut z = ZoneMapDelta::new(zone_block_of(2500), FilterDeltaType::Update);
    assert_eq!(z.block_id, 2);
    z.add_column_update("a", &Value::Null);
    z.add_column_update("b", &Value::Int4(1));
    assert_eq!(z.column_updates.len(), 2);
    assert!(z.column_updates[0].is_null);
    assert!(!z.column_updates[1].is_null);

    let mut pending: Vec<u32> = (0..11).collect();
    trim_pending(&mut pending, 10);
    assert_eq!(pending, (5..11).collect::<Vec<u32>>());
    trim_pending(&mut pending, 10);
    assert_eq!(pending.len(), 6);

    let d = FilterDelta::new(3, "t", 9, FilterDeltaType::Delete);
    assert_eq!(d.seq, 3);
    assert_eq!(d.table_name, "t");
    assert!(d.bloom_deltas.is_empty());
    assert!(d.zone_delta.is_none());
}

#[test]
fn bloom_delta_applies_to_filter() {
    let mut filter = heliosdb_lite::bloom_filter::BloomFilter::with_shape(128, 1);
    assert!(!filter.might_contain_hashes(3, 0));
    let mut delta = BloomFilterDelta::new("c");
    delta.bits_to_set = vec![(0, 1u64 << 3), (5, 1)];
    delta.rows_added = 2;
    delta.apply_to(&mut filter);
    assert!(filter.might_contain_hashes(3, 0));
    assert!(!filter.might_contain_hashes(4, 0));
    assert_eq!(filter.stats().insertions, 2);
    assert_eq!(filter.bits_len(), 2);
}

#[test]
fn merged_delta_applies_like_both() {
    let mut a = BloomFilterDelta::new("c");
    a.bits_to_set = vec![(0, 1u64 << 3)];
    a.rows_added = 1;
    let mut b = BloomFilterDelta::new("c");
    b.bits_to_set = vec![(1, 1u64 << 7), (0, 1)];
    b.rows_added = 2;
    let mut m = a.clone();
    m.merge(&b);
    assert_eq!(m.bits_to_set, vec![(0, 1u64 << 3), (1, 1u64 << 7), (0, 1)]);
    assert_eq!(m.rows_added, 3);
    let mut f1 = heliosdb_lite::bloom_filter::BloomFilter::with_shape(128, 1);
    let mut f2 = heliosdb_lite::bloom_filter::BloomFilter::with_shape(128, 1);
    m.apply_to(&mut f1);
    a.apply_to(&mut f2);
    b.apply_to(&mut f2);
    assert_eq!(f1.stats().insertions, f2.stats().insertions);
    for h in 0..128u64 {
        assert_eq!(f1.might_contain_hashes(h, 0), f2.might_contain_hashes(h, 0));
    }
}
