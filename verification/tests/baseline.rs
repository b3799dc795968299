use quic_transport_qa::binary64::Binary64;
use quic_transport_qa::env::Environment;
use quic_transport_qa::programs::baseline::{passed, summarize, Config, Exchange, Outcome};
use quic_transport_qa::time::Duration;
use quic_transport_qa::wire::filler;

const MS: u128 = 1_000_000;

fn num(b: Binary64) -> f64 {
    f64::from_bits(b.to_bits())
}

#[test]
fn baseline_defaults() {
    let c = Config::from_env(&Environment::empty());
    assert_eq!((c.requests, c.payload), (2000, 1024));
    assert_eq!(c.budget, Duration::from_millis(15_000));
}

#[test]
fn exchanges_time_their_answers() {
    let budget = Duration::from_secs(15);
    let mut x = Exchange::new(3, 8);
    for (sent, back) in [(0, 3 * MS), (10 * MS, 11 * MS), (20 * MS, 25 * MS)] {
        assert!(x.begin(0, sent, budget));
        assert!(!x.is_answered());
        assert!(x.on_message(&filler(0xA5, 8), back));
        assert!(x.is_answered());
        assert!(!x.on_message(&filler(0xA5, 8), back + 1));
        x.end(Outcome::Answered);
    }
    assert!(!x.begin(0, 30 * MS, budget));
    let run = summarize(&x, Duration::from_millis(500));
    assert_eq!(run.failures, 0);
    assert_eq!((run.latency.count, run.latency.p50, run.latency.p95), (3, 3 * MS, 5 * MS));
    assert_eq!(num(run.rate), 3.0 / 0.5);
    assert!(run.is_clean(budget));
    assert!(run.is_clean(Duration::from_millis(500)));
    assert!(!run.is_clean(Duration::from_millis(499)));
    assert_eq!(num(summarize(&x, Duration::from_nanos(0)).rate), 0.0);
}

#[test]
fn wrong_lengths_and_silence_are_failures() {
    let budget = Duration::from_secs(1);
    let mut x = Exchange::new(4, 8);
    assert!(x.begin(0, 0, budget));
    assert!(x.on_message(&filler(0, 7), 5));
    x.end(Outcome::Answered);
    assert!(x.begin(0, 1, budget));
    x.end(Outcome::NotSent);
    assert!(x.begin(0, 2, budget));
    x.end(Outcome::TimedOut);
    assert!(!x.on_message(&filler(0, 8), 3));
    assert!(x.begin(0, 4, budget));
    assert!(x.on_message(&filler(0, 8), 9));
    x.end(Outcome::Answered);
    let run = summarize(&x, Duration::from_millis(1));
    assert_eq!(run.failures, 3);
    assert_eq!((run.latency.count, run.latency.p99), (1, 5));
    assert!(!run.is_clean(budget));
    assert!(run.latency.count as u128 + run.failures >= 4);
}

#[test]
fn running_out_of_budget_fails_all_requests() {
    let budget = Duration::from_millis(10);
    let mut x = Exchange::new(5, 1);
    assert!(x.begin(0, 10 * MS, budget));
    x.on_message(&filler(0, 1), 10 * MS);
    x.end(Outcome::Answered);
    assert!(!x.begin(0, 10 * MS + 1, budget));
    assert!(x.gave_up);
    assert!(!x.begin(0, 0, budget));
    assert_eq!(summarize(&x, Duration::from_millis(11)).failures, 5);
}

#[test]
fn both_transports_must_be_clean() {
    let cfg = Config::from_env(&Environment::empty());
    let good = summarize(&Exchange::new(0, 1), Duration::from_secs(1));
    let slow = summarize(&Exchange::new(0, 1), Duration::from_secs(16));
    assert!(passed(&cfg, &good, &good));
    assert!(!passed(&cfg, &slow, &good));
    assert!(!passed(&cfg, &good, &slow));
}
