use quic_transport_qa::binary64::Binary64;
use quic_transport_qa::env::Environment;
use quic_transport_qa::programs::concurrent::{judge, Config, Fleet};
use quic_transport_qa::session::Wait;
use quic_transport_qa::time::Duration;

fn num(b: Binary64) -> f64 {
    f64::from_bits(b.to_bits())
}

#[test]
fn concurrent_defaults() {
    let c = Config::from_env(&Environment::empty());
    assert_eq!((c.clients, c.pings, c.payload), (50, 10, 256));
    assert_eq!(c.budget, Duration::from_secs(30));
    assert_eq!(num(c.max_growth_pct), 80.0);
    assert_eq!(c.ping().as_ref(), &[0xCD; 256]);
}

fn fleet(clients: usize, pings: usize) -> Fleet {
    Fleet::new(clients, pings, 5, Duration::from_nanos(10))
}

#[test]
fn fleets_wait_for_every_client() {
    let mut f = fleet(3, 2);
    assert_eq!(f.poll_connected(14), Wait::Again);
    assert_eq!(f.left(14).nanos, 1);
    assert_eq!(f.left(15).nanos, 0);
    assert_eq!(f.left(99).nanos, 0);
    f.on_connected(0);
    f.on_connected(2);
    f.on_connected(2);
    assert_eq!(f.connected(), 2);
    assert_eq!(f.poll_connected(15), Wait::TimedOut);
    f.on_connected(1);
    assert_eq!(f.poll_connected(15), Wait::Done);
    assert_eq!(fleet(0, 5).poll_connected(99), Wait::Done);
}

#[test]
fn fleets_wait_for_every_echo() {
    let mut f = fleet(2, 2);
    assert!(!f.on_echo(0));
    assert!(f.on_echo(0));
    assert!(!f.on_echo(1));
    assert_eq!(f.poll_echoed(true, 14), Wait::Again);
    assert_eq!(f.poll_echoed(true, 15), Wait::TimedOut);
    assert!(f.on_echo(1));
    assert_eq!(f.poll_echoed(false, 10), Wait::Again);
    assert_eq!(f.poll_echoed(true, 50), Wait::Done);
    assert_eq!(f.echoes(), 4);
    assert!(f.on_echo(1));
    assert_eq!(f.echoes(), 5);
    assert!(fleet(4, 0).is_echoed());
}

#[test]
fn concurrent_verdicts() {
    let c = Config::from_env(&Environment::empty());
    let v = judge(&c, Wait::Done, Wait::Done, 0, 100, 180);
    assert!(v.passed());
    assert_eq!(num(v.growth_pct), ((180.0 / 100.0) - 1.0) * 100.0);
    assert!(!judge(&c, Wait::TimedOut, Wait::Done, 0, 1, 1).all_connected);
    assert!(!judge(&c, Wait::Done, Wait::TimedOut, 0, 1, 1).all_echoed);
    assert!(!judge(&c, Wait::Done, Wait::Done, 1, 1, 1).undisturbed);
    assert!(!judge(&c, Wait::Done, Wait::Done, 0, 100, 181).memory_bounded);
    assert!(judge(&c, Wait::Done, Wait::Done, 0, 0, 181).passed());
}
