use quic_transport_qa::binary64::Binary64;
use quic_transport_qa::env::Environment;
use quic_transport_qa::probe::Probe;
use quic_transport_qa::programs::wan_stability::{judge, relay_dial_text, Config};
use quic_transport_qa::session::{exit_code, poll, Disconnects, Wait};
use quic_transport_qa::time::Duration;

fn num(b: Binary64) -> f64 {
    f64::from_bits(b.to_bits())
}

fn of(x: f64) -> Binary64 {
    Binary64::from_bits(x.to_bits())
}

fn config() -> Config {
    Config::from_env(&Environment::empty())
}

#[test]
fn wan_stability_defaults() {
    let c = config();
    assert_eq!((c.rtt_ms, c.jitter_ms, c.secs, c.payload), (80, 20, 30, 256));
    assert_eq!((num(c.loss_pct), num(c.min_delivery), c.max_p95_ms), (1.0, 0.85, 0));
    assert_eq!(c.period, Duration::from_millis(50));
    assert_eq!(c.idle_timeout, Duration::from_secs(30));
    assert_eq!(c.keep_alive, Duration::from_millis(2000));
    assert_eq!((c.relay().one_way_ms, c.relay().jitter_ms), (40, 20));
    assert!(c.is_in_range());
    assert_eq!(c.workload(3).total, 600);
    assert_eq!(c.workload(3).window, Duration::from_secs(5));
}

#[test]
fn budgets_follow_the_round_trip() {
    let mut c = config();
    for (rtt, handshake, drain) in [
        (80, 5_000, 1_000),
        (0, 5_000, 1_000),
        (1_250, 5_000, 6_250),
        (2_000, 8_000, 10_000),
        (7_500, 30_000, 10_000),
        (9_000, 30_000, 10_000),
        (u64::MAX / 5, 30_000, 10_000),
    ] {
        c.rtt_ms = rtt;
        assert!(c.is_in_range());
        assert_eq!(c.handshake_budget(), Duration::from_millis(handshake));
        assert_eq!(c.drain(), Duration::from_millis(drain));
    }
    c.rtt_ms = u64::MAX / 5 + 1;
    assert!(!c.is_in_range());
}

#[test]
fn messages_carry_the_time() {
    let mut c = config();
    c.payload = 4;
    assert_eq!(c.message(Some(77)).as_ref(), &77u128.to_be_bytes());
    c.payload = 40;
    assert_eq!(c.message(None).as_ref(), &[0u8; 40]);
}

#[test]
fn clients_dial_the_relay() {
    assert_eq!(
        relay_dial_text(40000, "QmPeer"),
        "/ip4/127.0.0.1/udp/40000/quic-v1/p2p/QmPeer"
    );
}

#[test]
fn wan_stability_verdicts() {
    let c = config();
    let mut run = c.workload(0);
    for _ in 0..20 {
        run.on_send(true);
    }
    let probe = |acked: usize| Probe { acked, rtt_ns: vec![90_000_000; acked] };
    let v = judge(&c, &run, probe(17), 0);
    assert!(v.passed());
    assert_eq!((v.loss, num(v.delivery), v.latency.p95), (3, 0.85, 90_000_000));
    assert!(!judge(&c, &run, probe(16), 0).delivered);
    assert!(!judge(&c, &run, probe(20), 1).undisturbed);
    let mut capped = c;
    capped.max_p95_ms = 90;
    assert!(judge(&capped, &run, probe(20), 0).passed());
    capped.max_p95_ms = 89;
    assert!(!judge(&capped, &run, probe(20), 0).fast);
    // A fraction of a millisecond above the cap is above the cap.
    capped.max_p95_ms = 90;
    let late = Probe { acked: 20, rtt_ns: vec![90_000_001; 20] };
    assert!(!judge(&capped, &run, late, 0).fast);
    run.on_send(false);
    assert!(!judge(&c, &run, probe(20), 0).all_sent);
    let idle = c.workload(0);
    let v = judge(&c, &idle, Probe::new(), 0);
    assert_eq!(num(v.delivery), 0.0);
    assert!(!v.passed());
    let mut lax = c;
    lax.min_delivery = of(0.0);
    assert!(judge(&lax, &idle, Probe::new(), 0).passed());
}

#[test]
fn waits_end_when_done_or_out_of_budget() {
    let b = Duration::from_nanos(10);
    assert_eq!(poll(false, 5, 14, b), Wait::Again);
    assert_eq!(poll(false, 5, 15, b), Wait::TimedOut);
    assert_eq!(poll(true, 5, 99, b), Wait::Done);
    let mut d = Disconnects::new();
    d.on_close();
    assert_eq!(d.count, 1);
    assert_eq!((exit_code(true), exit_code(false)), (0, 1));
}
