use heliosdb_lite::value::Value;
use heliosdb_lite::zone_summary::HyperLogLog;

/// The HyperLogLog cardinality estimate over the registers (floating point,
/// so computed here rather than by the library).
fn estimate(hll: &HyperLogLog) -> u64 {
    let registers = hll.registers();
    let m = registers.len() as f64;
    let alpha = match registers.len() {
        16 => 0.673,
        32 => 0.697,
        64 => 0.709,
        _ => 0.7213 / (1.0 + 1.079 / m),
    };
    let sum: f64 = registers.iter().map(|&r| 2.0_f64.powi(-(r as i32))).sum();
    let raw = alpha * m * m / sum;
    if raw <= 2.5 * m {
        let zeros = registers.iter().filter(|&&r| r == 0).count() as f64;
        if zeros > 0.0 {
            (m * (m / zeros).ln()) as u64
        } else {
            raw as u64
        }
    } else if raw <= (1u64 << 32) as f64 / 30.0 {
        raw as u64
    } else {
        let two_32 = (1u64 << 32) as f64;
        (-two_32 * (1.0 - raw / two_32).ln()) as u64
    }
}

#[test]
fn test_hyperloglog_basic() {
    let mut hll = HyperLogLog::new(12);

    for i in 0..10000i64 {
        hll.add(&Value::Int8(i));
    }

    let estimate = estimate(&hll);
    assert!(estimate > 9500 && estimate < 10500, "Estimate: {}", estimate);
}

#[test]
fn test_hyperloglog_duplicates() {
    let mut hll = HyperLogLog::new(12);

    for _ in 0..10000 {
        hll.add(&Value::Int8(42));
    }

    let estimate = estimate(&hll);
    assert_eq!(estimate, 1);
}

#[test]
fn test_hyperloglog_merge() {
    let mut hll1 = HyperLogLog::new(12);
    let mut hll2 = HyperLogLog::new(12);

    for i in 0..5000i64 {
        hll1.add(&Value::Int8(i));
    }
    for i in 5000..10000i64 {
        hll2.add(&Value::Int8(i));
    }

    hll1.merge(&hll2);
    let estimate = estimate(&hll1);
    assert!(estimate > 9500 && estimate < 10500, "Estimate: {}", estimate);
}
