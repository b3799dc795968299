use quic_transport_qa::binary64::Binary64;
use quic_transport_qa::env::Environment;
use quic_transport_qa::programs::large_message::{
    judge, summarize, time_ratio, Config, RunResult, Transfer,
};
use quic_transport_qa::session::Wait;
use quic_transport_qa::time::Duration;
use quic_transport_qa::wire::filler;

fn num(b: Binary64) -> f64 {
    f64::from_bits(b.to_bits())
}

fn config(ratio_max: f64) -> Config {
    let mut c = Config::from_env(&Environment::empty());
    c.ratio_max = Binary64::from_bits(ratio_max.to_bits());
    c
}

fn result(nanos: u128) -> RunResult {
    summarize(&Transfer::new(0), 1, Duration::from_nanos(nanos), false)
}

#[test]
fn large_message_defaults() {
    let mut c = Config::from_env(&Environment::empty());
    assert_eq!((c.size_mib, c.count, num(c.ratio_max)), (2, 16, 0.0));
    assert_eq!(c.budget, Duration::from_secs(60));
    assert_eq!(c.bytes_each(), 2 * 1024 * 1024);
    assert!(c.is_in_range());
    c.size_mib = 1;
    let p = c.payload();
    assert_eq!(p.len(), 1024 * 1024);
    assert!(p.iter().all(|b| *b == 0xAB));
    c.size_mib = usize::MAX / 1024;
    assert!(!c.is_in_range());
}

#[test]
fn transfers_wait_for_all_messages() {
    let budget = Duration::from_nanos(100);
    let mut t = Transfer::new(2);
    while t.is_due() {
        t.on_send(true);
    }
    assert_eq!(t.poll(0, 50, budget), Wait::Again);
    assert!(!t.on_message(&filler(1, 10)));
    assert_eq!(t.poll(0, 100, budget), Wait::TimedOut);
    assert!(t.on_message(&filler(1, 5)));
    assert_eq!(t.poll(0, 100, budget), Wait::Done);
    assert_eq!((t.acked_msgs, t.acked_bytes), (2, 15));
    let r = summarize(&t, 3 * 1024 * 1024, Duration::from_millis(1500), false);
    assert_eq!(r.failures, 0);
    assert_eq!(num(r.goodput), 6291456f64 / 1.5 / (1024.0 * 1024.0));
    assert_eq!(Transfer::new(0).poll(0, 0, budget), Wait::Done);
}

#[test]
fn refused_and_missing_messages_are_failures() {
    let mut t = Transfer::new(4);
    t.on_send(true);
    t.on_send(false);
    t.on_send(true);
    t.on_send(true);
    t.on_message(&filler(0, 1));
    assert_eq!(summarize(&t, 1, Duration::from_secs(1), true).failures, 1 + 3);
    assert_eq!(summarize(&t, 1, Duration::from_secs(1), false).failures, 1);
}

#[test]
fn large_message_verdicts() {
    let fast = result(1_000_000_000);
    let slow = result(3_000_000_000);
    assert!(judge(&config(0.0), &fast, &slow).passed());
    assert!(judge(&config(3.0), &fast, &slow).passed());
    assert!(!judge(&config(2.9), &fast, &slow).parity);
    assert!(judge(&config(1.0), &slow, &slow).passed());
    assert_eq!(num(time_ratio(fast.elapsed, slow.elapsed)), 3.0);
    let late = result(60_000_000_001);
    assert!(!judge(&config(0.0), &late, &fast).tcp_clean);
    assert!(!judge(&config(0.0), &fast, &late).quic_clean);
    let mut refused = Transfer::new(1);
    refused.on_send(false);
    let bad = summarize(&refused, 1, Duration::from_secs(1), false);
    assert!(!judge(&config(0.0), &bad, &fast).passed());
}

#[test]
fn parity_with_no_time_at_all() {
    let none = result(0);
    let some = result(5);
    assert_eq!(num(time_ratio(none.elapsed, some.elapsed)), 0.0);
    assert!(!judge(&config(1.0), &none, &some).parity);
    assert!(judge(&config(1.0), &none, &none).parity);
    assert!(judge(&config(0.0), &none, &some).parity);
}
