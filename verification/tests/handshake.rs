use quic_transport_qa::binary64::Binary64;
use quic_transport_qa::env::Environment;
use quic_transport_qa::programs::handshake::{judge, Config, Storm};
use quic_transport_qa::time::Duration;

fn num(b: Binary64) -> f64 {
    f64::from_bits(b.to_bits())
}

fn storm(connected: &[Option<u128>]) -> Storm {
    let mut s = Storm::new(Duration::from_secs(20));
    for c in connected {
        let i = s.on_dial(1_000);
        if let Some(ns) = c {
            s.on_connected(i, 1_000 + ns);
        }
    }
    s
}

#[test]
fn handshake_defaults() {
    let c = Config::from_env(&Environment::empty());
    assert_eq!((c.clients, num(c.min_success), c.max_p95_ms), (100, 1.0, 0));
    assert_eq!(c.budget, Duration::from_secs(20));
}

#[test]
fn handshakes_count_within_the_budget() {
    let budget = 20_000_000_000u128;
    let mut s = storm(&[Some(5), None, Some(budget), Some(budget + 1)]);
    assert_eq!(s.latencies(), vec![5, budget]);
    s.on_connected(0, 999_999);
    assert_eq!(s.latencies(), vec![5, budget]);
    assert!(!s.is_settled(1_000 + budget));
    assert!(s.is_settled(1_001 + budget));
    s.on_connected(1, 1_001 + budget);
    assert_eq!(s.latencies().len(), 2);
    assert!(storm(&[]).is_settled(0));
}

#[test]
fn handshake_verdicts() {
    let mut c = Config::from_env(&Environment::empty());
    c.clients = 4;
    let ms = 1_000_000u128;
    let all = storm(&[Some(ms), Some(2 * ms), Some(3 * ms), Some(4 * ms)]);
    let v = judge(&c, &all);
    assert!(v.passed());
    assert_eq!((num(v.ratio), v.latency.p50, v.latency.p95), (1.0, 3 * ms, 4 * ms));
    let some = storm(&[Some(ms), None, Some(ms), Some(ms)]);
    let v = judge(&c, &some);
    assert_eq!(num(v.ratio), 0.75);
    assert!(!v.enough);
    c.min_success = Binary64::from_bits(0.75f64.to_bits());
    assert!(judge(&c, &some).passed());
    c.max_p95_ms = 4;
    assert!(judge(&c, &all).passed());
    c.max_p95_ms = 3;
    assert!(!judge(&c, &all).fast);
    let nearly = storm(&[Some(3 * ms + 1), Some(3 * ms + 1), Some(3 * ms + 1), Some(3 * ms + 1)]);
    assert!(!judge(&c, &nearly).fast);
}

#[test]
fn storms_without_clients_pass() {
    let mut c = Config::from_env(&Environment::empty());
    c.clients = 0;
    let v = judge(&c, &storm(&[]));
    assert!(num(v.ratio).is_nan());
    assert!(v.passed());
}
