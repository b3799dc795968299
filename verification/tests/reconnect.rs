use quic_transport_qa::env::Environment;
use quic_transport_qa::programs::reconnect::{
    first_step, judge, min_acked, next_step, ping, Client, Config, Step,
};
use quic_transport_qa::time::Duration;

const MS: u128 = 1_000_000;

#[test]
fn reconnect_defaults() {
    let c = Config::from_env(&Environment::empty());
    assert_eq!(c.cycles, 3);
    assert_eq!(c.up, Duration::from_secs(4));
    assert_eq!(c.down, Duration::from_secs(2));
    assert_eq!(c.period, Duration::from_millis(100));
    assert_eq!(c.redial_budget, Duration::from_millis(5000));
    assert_eq!(ping().as_ref(), b"jitter-ping");
}

#[test]
fn clients_measure_their_comebacks() {
    let mut c = Client::new();
    c.on_connected(0);
    assert!(c.connected);
    assert!(c.intervals_ms.is_empty() && c.comebacks_ns.is_empty());
    c.on_disconnected(1000 * MS);
    c.on_disconnected(1100 * MS);
    assert!(!c.connected);
    c.on_server_back(3000 * MS);
    c.on_connected(3250 * MS + 999_999);
    assert_eq!(c.intervals_ms, vec![2150]);
    assert_eq!(c.comebacks_ns, vec![250 * MS + 999_999]);
    assert_eq!(c.connected_at, Some(3250 * MS + 999_999));
    c.on_connected(4000 * MS);
    assert_eq!(c.comebacks_ns.len(), 1);
    c.on_sent();
    c.on_sent();
    c.on_answer();
    c.on_error();
    assert_eq!((c.sent, c.acked, c.errors), (2, 1, 1));
}

#[test]
fn late_notice_of_a_restart_still_counts() {
    let mut c = Client::new();
    c.on_connected(0);
    c.on_server_back(500 * MS);
    c.on_disconnected(900 * MS);
    c.on_connected(1200 * MS);
    assert_eq!(c.comebacks_ns, vec![700 * MS]);
    assert_eq!(c.intervals_ms, vec![300]);
}

#[test]
fn runs_pass_when_the_client_is_always_back() {
    let mut cfg = Config::from_env(&Environment::empty());
    cfg.cycles = 2;
    let mut c = Client::new();
    c.on_server_back(0);
    c.on_connected(5000 * MS);
    c.on_server_back(9000 * MS);
    assert!(!judge(&cfg, &c, 0).all_back);
    c.on_connected(9001 * MS);
    let v = judge(&cfg, &c, 0);
    assert!(v.passed());
    assert!(!judge(&cfg, &c, 1).enough_acked);
    c.on_answer();
    assert!(judge(&cfg, &c, 1).passed());
    cfg.redial_budget = Duration::from_millis(4999);
    let v = judge(&cfg, &c, 1);
    assert!(v.all_back && !v.in_budget && !v.passed());
    cfg.redial_budget = Duration::from_millis(5000);
    let mut late = Client::new();
    late.on_server_back(0);
    late.on_connected(5000 * MS + 1);
    assert!(!judge(&cfg, &late, 0).in_budget);
}

#[test]
fn missed_comebacks_are_not_made_up() {
    let mut cfg = Config::from_env(&Environment::empty());
    cfg.cycles = 2;
    let mut c = Client::new();
    c.on_server_back(0);
    c.on_server_back(1000 * MS);
    for t in 2..10u128 {
        c.on_connected(t * 1000 * MS);
        c.on_disconnected(t * 1000 * MS + 1);
    }
    assert_eq!(c.comebacks_ns, vec![1000 * MS]);
    assert!(c.intervals_ms.len() > 2);
    assert!(!judge(&cfg, &c, 0).passed());
}

#[test]
fn three_tenths_are_asked_by_default() {
    let e = Environment::empty();
    for sent in [0usize, 1, 3, 4, 10, 99, 100, 12345, 1_000_000_007, usize::MAX] {
        assert_eq!(min_acked(&e, sent), (sent as f64 * 0.30) as usize);
    }
    assert_eq!(min_acked(&e, 10), 3);
    let mut e = Environment::empty();
    e.capture("QA_MIN_ACKED".to_string(), "17".to_string(), None);
    assert_eq!(min_acked(&e, 1000), 17);
}

#[test]
fn plans_restart_once_per_cycle() {
    let mut step = first_step(2);
    let mut seen = Vec::new();
    while step != Step::Judge {
        seen.push(step);
        step = next_step(step, 2);
    }
    assert_eq!(
        seen,
        vec![
            Step::Up { cycle: 0 },
            Step::TearDown { cycle: 0 },
            Step::Down { cycle: 0 },
            Step::Respawn { cycle: 0 },
            Step::Up { cycle: 1 },
            Step::TearDown { cycle: 1 },
            Step::Down { cycle: 1 },
            Step::Respawn { cycle: 1 },
            Step::Tail,
            Step::Settle,
        ]
    );
    assert_eq!(first_step(0), Step::Tail);
    assert_eq!(next_step(Step::Respawn { cycle: u32::MAX }, u32::MAX), Step::Tail);
    assert_eq!(next_step(Step::Judge, 1), Step::Judge);
}
