use quic_transport_qa::binary64::Binary64;
use quic_transport_qa::env::Environment;
use quic_transport_qa::programs::soak::{judge, payload, Client, Config};
use quic_transport_qa::time::{elapsed, Duration};
use quic_transport_qa::workload::{loss, total_iterations, Paced};

const SEC: u128 = 1_000_000_000;

fn num(b: Binary64) -> f64 {
    f64::from_bits(b.to_bits())
}

fn clean(acked: usize) -> Client {
    Client { acked, disconnects: 0 }
}

#[test]
fn soak_defaults() {
    let c = Config::from_env(&Environment::empty());
    assert_eq!(c.secs, 30);
    assert_eq!(c.period, Duration::from_millis(20));
    assert_eq!(num(c.max_growth_pct), 50.0);
    let w = c.workload(7);
    assert_eq!((w.total, w.sent, w.window_start), (1500, 0, 7));
    assert_eq!(payload().as_ref(), &[0xCC; 64]);
}

#[test]
fn iterations_fill_the_run() {
    assert_eq!(total_iterations(10, Duration::from_millis(25)), 400);
    assert_eq!(total_iterations(1, Duration::from_millis(300)), 3);
    assert_eq!(total_iterations(2, Duration::from_millis(0)), 2000);
    assert_eq!(total_iterations(0, Duration::from_millis(5)), 0);
    assert_eq!(
        total_iterations(u64::MAX, Duration::from_millis(1)),
        (u64::MAX as u128 * 1000) as usize
    );
}

#[test]
fn workloads_send_until_done_or_failed() {
    let mut p = Paced::new(3, Duration::from_secs(2), 0);
    for _ in 0..3 {
        assert!(p.is_due());
        p.on_send(true);
    }
    assert!(!p.is_due());
    assert_eq!(p.sent, 3);
    let mut p = Paced::new(3, Duration::from_secs(2), 0);
    p.on_send(true);
    p.on_send(false);
    assert!(!p.is_due() && p.failed);
    assert_eq!(p.sent, 1);
}

#[test]
fn windows_show_loss_and_throughput() {
    let mut p = Paced::new(100, Duration::from_secs(2), 5 * SEC);
    for _ in 0..30 {
        p.on_send(true);
    }
    assert!(!p.is_window_over(7 * SEC - 1));
    assert!(p.is_window_over(7 * SEC));
    let w = p.close_window(7 * SEC + SEC / 2, 25);
    assert_eq!((w.sent, w.acked, w.loss), (30, 25, 5));
    assert_eq!(num(w.throughput), 25f64 / 2.5);
    assert!(!p.is_window_over(9 * SEC));
    let w = p.close_window(10 * SEC + SEC / 2, 40);
    assert_eq!(w.loss, 0);
    assert_eq!(num(w.throughput), 15f64 / 3.0);
    assert_eq!(loss(5, 9), 0);
    assert_eq!(elapsed(9, 4).nanos, 0);
}

#[test]
fn soak_verdicts() {
    let cfg = Config::from_env(&Environment::empty());
    let mut run = Paced::new(4, Duration::from_secs(2), 0);
    for _ in 0..4 {
        run.on_send(true);
    }
    let v = judge(&cfg, &run, &clean(4), 100, &vec![150, 100, 120], 999);
    assert!(v.passed());
    assert_eq!((v.loss, v.rss_min, v.rss_max), (0, 100, 150));
    assert_eq!(num(v.growth_pct), 50.0);
    let v = judge(&cfg, &run, &clean(4), 100, &vec![151, 100], 0);
    assert!(!v.memory_bounded && !v.passed());
    let v = judge(&cfg, &run, &clean(3), 100, &vec![100], 100);
    assert!(!v.lossless && v.loss == 1 && !v.passed());
    let v = judge(&cfg, &run, &clean(5), 100, &vec![100], 100);
    assert!(v.lossless && v.passed());
    let mut noisy = clean(4);
    noisy.on_disconnect();
    assert!(!judge(&cfg, &run, &noisy, 1, &vec![], 1).undisturbed);
    let v = judge(&cfg, &run, &clean(4), 0, &vec![], 500);
    assert_eq!((v.rss_min, v.rss_max, num(v.growth_pct)), (0, 500, 0.0));
    let mut failed = Paced::new(4, Duration::from_secs(2), 0);
    failed.on_send(false);
    assert!(!judge(&cfg, &failed, &clean(0), 1, &vec![], 1).all_sent);
}

#[test]
fn soak_clients_count() {
    let mut c = Client::new();
    c.on_answer();
    c.on_answer();
    c.on_disconnect();
    assert_eq!((c.acked, c.disconnects), (2, 1));
}
