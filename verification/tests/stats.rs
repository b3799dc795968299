use quic_transport_qa::binary64::Binary64;
use quic_transport_qa::stats::{as_millis, delivery, keeps_cap, pct, percentiles};

fn num(b: Binary64) -> f64 {
    f64::from_bits(b.to_bits())
}

fn reference(sorted: &[u128], p: f64) -> u128 {
    if sorted.is_empty() {
        return 0;
    }
    let idx = ((sorted.len() as f64 - 1.0) * p).round() as usize;
    sorted[idx.min(sorted.len() - 1)]
}

#[test]
fn percentiles_of_a_hundred() {
    let samples: Vec<u128> = (1..=100).rev().collect();
    let r = percentiles(samples);
    assert_eq!((r.count, r.p50, r.p95, r.p99), (100, 51, 95, 99));
}

#[test]
fn percentiles_of_few_samples() {
    let r = percentiles(Vec::new());
    assert_eq!((r.count, r.p50, r.p95, r.p99), (0, 0, 0, 0));
    let r = percentiles(vec![7]);
    assert_eq!((r.count, r.p50, r.p95, r.p99), (1, 7, 7, 7));
    let r = percentiles(vec![9, 3]);
    assert_eq!((r.p50, r.p95, r.p99), (9, 9, 9));
    let r = percentiles(vec![5, 1, 3]);
    assert_eq!((r.p50, r.p95, r.p99), (3, 5, 5));
}

#[test]
fn percentiles_are_ordered_samples_at_the_nearest_rank() {
    for len in 1..300u128 {
        let samples: Vec<u128> = (0..len).map(|i| (i * 7919) % len).collect();
        let r = percentiles(samples.clone());
        let mut sorted = samples.clone();
        sorted.sort_unstable();
        for (got, p, hundredths) in [(r.p50, 0.50, 50u128), (r.p95, 0.95, 95), (r.p99, 0.99, 99)] {
            assert_eq!(got, reference(&sorted, p));
            assert_eq!(got, sorted[((2 * (len - 1) * hundredths + 100) / 200) as usize]);
            assert!(samples.contains(&got));
        }
        assert!(r.p50 <= r.p95 && r.p95 <= r.p99);
    }
}

#[test]
fn pct_takes_any_fraction() {
    let sorted: Vec<u128> = (0..10).collect();
    for p in [0.0, 0.25, 0.5, 0.999, 1.0, 3.0, -1.0, f64::NAN] {
        assert_eq!(pct(&sorted, Binary64::from_bits(p.to_bits())), reference(&sorted, p));
    }
}

#[test]
fn caps_are_exact_and_zero_is_none() {
    assert!(keeps_cap(250_000_000, 250));
    assert!(!keeps_cap(250_000_001, 250));
    assert!(keeps_cap(249_999_999, 250));
    assert!(keeps_cap(u128::MAX, 0));
    assert!(!keeps_cap(u128::MAX, u64::MAX));
    assert!(keeps_cap(4_294_967_295_000_000, u32::MAX as u64));
    assert!(!keeps_cap(4_294_967_295_000_001, u32::MAX as u64));
}

#[test]
fn milliseconds_and_shares() {
    assert_eq!(num(as_millis(1_500_000)), 1.5);
    assert_eq!(num(as_millis(123_456_789)), 123_456_789f64 / 1e6);
    assert_eq!(num(delivery(0, 0)), 0.0);
    assert_eq!(num(delivery(5, 0)), 0.0);
    assert_eq!(num(delivery(95, 100)), 95f64 / 100f64);
    assert_eq!(num(delivery(12_345, 12_345)), 1.0);
    assert_eq!(num(delivery(3, 2)), 1.5);
}
