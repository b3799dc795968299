use quic_transport_qa::binary64::Binary64;
use quic_transport_qa::relay::{Endpoint, Relay, WanCfg};
use quic_transport_qa::rng::XorShift;

const SERVER: Endpoint = Endpoint { ip: 0x7F00_0001, port: 4433 };
const CLIENT: Endpoint = Endpoint { ip: 0x7F00_0001, port: 50000 };
const OTHER: Endpoint = Endpoint { ip: 0x7F00_0001, port: 50001 };

fn cfg(one_way_ms: u64, jitter_ms: u64, loss_pct: f64) -> WanCfg {
    WanCfg { one_way_ms, jitter_ms, loss_pct: Binary64::from_bits(loss_pct.to_bits()) }
}

#[test]
fn datagrams_cross_between_client_and_server() {
    let mut r = Relay::new(SERVER, cfg(40, 0, 0.0), XorShift::new(Some(1)));
    let state = r.rng.state;
    assert_eq!(r.forward(SERVER), None);
    assert_eq!(r.rng.state, state);
    let hop = r.forward(CLIENT).unwrap();
    assert_eq!((hop.to, hop.delay.as_millis()), (SERVER, 40));
    assert_eq!(r.forward(SERVER).unwrap().to, CLIENT);
    assert_eq!(r.forward(OTHER).unwrap().to, SERVER);
    assert_eq!(r.forward(SERVER).unwrap().to, OTHER);
    assert_eq!(r.client, Some(OTHER));
}

#[test]
fn everything_or_nothing_is_lost() {
    let mut all = Relay::new(SERVER, cfg(1, 5, 100.0), XorShift::new(Some(3)));
    let mut none = Relay::new(SERVER, cfg(1, 5, 0.0), XorShift::new(Some(3)));
    for _ in 0..2000 {
        assert_eq!(all.forward(CLIENT), None);
        assert!(none.forward(CLIENT).is_some());
    }
    assert_eq!(all.client, Some(CLIENT));
    for loss in [-0.0, -1.0, f64::NEG_INFINITY] {
        let mut less = Relay::new(SERVER, cfg(1, 5, loss), XorShift::new(Some(3)));
        assert!((0..200).all(|_| less.forward(CLIENT).is_some()));
    }
    let mut odd = Relay::new(SERVER, cfg(1, 5, f64::NAN), XorShift::new(Some(3)));
    assert!(odd.forward(CLIENT).is_some());
}

#[test]
fn losses_and_delays_follow_the_draws() {
    let config = cfg(10, 20, 30.0);
    assert!(config.is_in_range());
    let mut r = Relay::new(SERVER, config, XorShift::new(Some(99)));
    let mut draws = XorShift::new(Some(99));
    let mut lost = 0;
    for _ in 0..2000 {
        let hop = r.forward(CLIENT);
        let dropped = f64::from_bits(draws.next_f64().to_bits()) * 100.0 < 30.0;
        if dropped {
            lost += 1;
            assert_eq!(hop, None);
        } else {
            let extra = 10 + draws.jitter_ms(20);
            let delay = hop.unwrap().delay;
            assert_eq!(delay.as_millis(), extra.max(0) as u128);
            assert!(delay.as_millis() <= 30);
        }
        assert_eq!(r.rng, draws);
    }
    assert!((450..750).contains(&lost));
}

#[test]
fn ranges_of_the_clock() {
    assert!(cfg(u64::MAX / 2, 0, 0.0).is_in_range());
    assert!(!cfg(u64::MAX / 2, 1, 0.0).is_in_range());
    assert!(!cfg(0, 0x4000_0000_0000_0000, 0.0).is_in_range());
    assert!(cfg(0, 0x3FFF_FFFF_FFFF_FFFF, 0.0).is_in_range());
}
