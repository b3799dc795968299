use bytes::Bytes;
use quic_transport_qa::binary64::Binary64;
use quic_transport_qa::env::Environment;
use quic_transport_qa::programs::gossip::{
    judge, loss_of_node, loss_of_pair, Broadcaster, Config, Delivery, NodeState, ShortPair,
};
use quic_transport_qa::time::Duration;
use quic_transport_qa::wire::gossip_frame;

fn num(b: Binary64) -> f64 {
    f64::from_bits(b.to_bits())
}

fn of(x: f64) -> Binary64 {
    Binary64::from_bits(x.to_bits())
}

fn config(min_per_pair: u64, max_loss: f64) -> Config {
    let mut c = Config::from_env(&Environment::empty());
    c.min_per_pair = min_per_pair;
    c.max_loss_ratio = of(max_loss);
    c
}

fn delivery(observed: Vec<Vec<u64>>, sent: Vec<u64>) -> Delivery {
    Delivery { observed, sent }
}

#[test]
fn gossip_defaults() {
    let c = Config::from_env(&Environment::empty());
    assert_eq!(c.nodes, 6);
    assert_eq!(c.duration, Duration::from_secs(8));
    assert_eq!(c.interval, Duration::from_millis(100));
    assert_eq!(c.min_per_pair, 20);
    assert_eq!(num(c.max_loss_ratio), 0.05);
}

#[test]
fn gossip_settings_come_from_the_environment() {
    let mut e = Environment::empty();
    for (k, v) in [
        ("QA_NODES", "4"),
        ("QA_DURATION_SECS", "3"),
        ("QA_INTERVAL_MS", "7"),
        ("QA_MIN_PER_PAIR", "9"),
        ("QA_MAX_LOSS_RATIO", "0.25"),
    ] {
        e.capture(k.to_string(), v.to_string(), v.parse::<f64>().ok().map(of));
    }
    let c = Config::from_env(&e);
    assert_eq!(c.nodes, 4);
    assert_eq!(c.duration, Duration::from_secs(3));
    assert_eq!(c.interval, Duration::from_millis(7));
    assert_eq!(c.min_per_pair, 9);
    assert_eq!(num(c.max_loss_ratio), 0.25);
    e.capture("QA_NODES".to_string(), "-1".to_string(), None);
    assert_eq!(Config::from_env(&e).nodes, 6);
}

#[test]
fn nodes_note_distinct_messages() {
    let mut n = NodeState::new();
    assert_eq!(n.observed(1), 0);
    n.receive(&gossip_frame(1, 5));
    n.receive(&gossip_frame(1, 5));
    n.receive(&gossip_frame(1, 6));
    n.receive(&gossip_frame(3, 0));
    n.receive(&Bytes::from_static(b"too short"));
    assert_eq!(n.row(4), vec![0, 2, 0, 1]);
    assert_eq!(n.observed(3), 1);
}

#[test]
fn broadcasts_are_numbered_and_arrive() {
    let mut b = Broadcaster::new(2);
    let mut n = NodeState::new();
    for _ in 0..25 {
        n.receive(&b.next_frame());
    }
    assert_eq!(b.seq, 25);
    assert_eq!(n.observed(2), 25);
    assert_eq!(b.next_frame(), gossip_frame(2, 25));
}

#[test]
fn full_delivery_passes() {
    let d = delivery(vec![vec![0, 80, 79], vec![81, 0, 79], vec![81, 80, 0]], vec![81, 80, 79]);
    assert!(d.is_complete());
    let v = judge(&config(20, 0.0), &d);
    assert!(v.passed());
    assert!(v.short_pairs.is_empty());
    assert_eq!(num(v.average_loss), 0.0);
    assert_eq!(v.node_losses.len(), 3);
}

#[test]
fn short_pairs_fail_the_run() {
    let d = delivery(vec![vec![0, 19], vec![20, 0]], vec![20, 20]);
    let v = judge(&config(20, 1.0), &d);
    assert!(!v.passed());
    assert!(v.losses_within);
    assert!(!v.enough_per_pair);
    assert_eq!(v.short_pairs, vec![ShortPair { to: 0, from: 1, observed: 19 }]);
}

#[test]
fn one_lossy_node_fails_the_run() {
    // Node 0 misses a tenth of what it expects, the others nothing.
    let d = delivery(
        vec![vec![0, 90, 90], vec![100, 0, 100], vec![100, 100, 0]],
        vec![100, 100, 100],
    );
    let v = judge(&config(20, 0.05), &d);
    assert!(v.enough_per_pair);
    assert!(!v.losses_within);
    assert_eq!(num(v.node_losses[0]), 20f64 / 200f64);
    assert_eq!(num(v.node_losses[1]), 0.0);
    let pair = 1.0 - 90f64 / 100f64;
    assert_eq!(num(v.average_loss), (pair + pair) / 6.0);
    assert!(judge(&config(20, 0.1), &d).passed());
    assert_eq!(num(loss_of_node(&d, 0)), 0.1);
    assert_eq!(num(loss_of_pair(&d, 0, 1)), pair);
    assert_eq!(num(loss_of_pair(&d, 1, 0)), 0.0);
}

#[test]
fn silent_senders_count_as_one_missing_message() {
    let d = delivery(vec![vec![0, 0], vec![3, 0]], vec![3, 0]);
    let v = judge(&config(0, 0.5), &d);
    assert!(v.enough_per_pair);
    assert_eq!(num(v.node_losses[0]), 1.0);
    assert!(!v.passed());
    let extra = delivery(vec![vec![0, 9], vec![3, 0]], vec![3, 5]);
    assert_eq!(num(judge(&config(0, 0.0), &extra).average_loss), 0.0);
}

#[test]
fn meshes_without_pairs_pass() {
    assert!(judge(&config(20, 0.05), &delivery(vec![], vec![])).passed());
    let one = judge(&config(20, 0.05), &delivery(vec![vec![0]], vec![10]));
    assert!(one.passed());
    assert_eq!(num(one.average_loss), 0.0);
    assert!(!delivery(vec![vec![0, 1]], vec![1]).is_complete());
    assert!(!delivery(vec![], vec![1]).is_complete());
}
