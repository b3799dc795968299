use quic_transport_qa::addr::{
    classify, dial_addr, dialed, first_udp_component, force_port, force_quic_port, is_well_formed,
    listen_addr_for, listen_port, listen_text_for, parse, quic_port, udp_port, Component,
};
use tentacle::multiaddr::{Multiaddr, Protocol};
use tentacle::secio::SecioKeyPair;

fn addr(s: &str) -> Multiaddr {
    s.parse().unwrap()
}

#[test]
fn ports_are_forced_and_the_rest_is_kept() {
    let pid = SecioKeyPair::secp256k1_generated().peer_id().to_base58();
    let a = addr(&format!("/ip4/127.0.0.1/udp/0/quic-v1/p2p/{pid}"));
    let b = force_quic_port(&a, 4433).unwrap();
    assert_eq!(b.to_string(), format!("/ip4/127.0.0.1/udp/4433/quic-v1/p2p/{pid}"));
    assert_eq!(force_quic_port(&b, 4433).unwrap(), b);
    let tcp = addr("/dns4/example.com/tcp/80");
    assert_eq!(force_quic_port(&tcp, 9).unwrap(), tcp);
    assert_eq!(
        force_quic_port(&addr("/udp/1/udp/2"), 3).unwrap().to_string(),
        "/udp/3/udp/3"
    );
}

#[test]
fn forcing_ports_on_components() {
    let list = vec![Component::Other(vec![4, 127, 0, 0, 1]), Component::Udp(0), Component::Udp(7)];
    assert_eq!(first_udp_component(&list), Some(0));
    let forced = force_port(list, 99);
    assert_eq!(first_udp_component(&forced), Some(99));
    assert!(matches!(&forced[0], Component::Other(b) if b == &vec![4, 127, 0, 0, 1]));
    assert!(matches!(forced[2], Component::Udp(99)));
    assert_eq!(first_udp_component(&Vec::new()), None);
}

#[test]
fn first_port_of_an_address() {
    assert_eq!(quic_port(&addr("/ip4/1.2.3.4/udp/9443/quic-v1")), Some(9443));
    assert_eq!(quic_port(&addr("/udp/1/udp/2")), Some(1));
    assert_eq!(quic_port(&addr("/ip4/1.2.3.4/tcp/9443")), None);
}

#[test]
fn port_in_the_text_of_an_address() {
    assert_eq!(udp_port("/ip4/127.0.0.1/udp/40123/quic-v1"), Some(40123));
    assert_eq!(udp_port("/ip4/127.0.0.1/udp/65535"), Some(65535));
    assert_eq!(udp_port("/udp/65536/udp/5"), Some(5));
    assert_eq!(udp_port("udp/5"), Some(5));
    assert_eq!(udp_port("/udp/udp/6"), Some(6));
    assert_eq!(udp_port("/udp/+7/x"), Some(7));
    assert_eq!(udp_port("/udp"), None);
    assert_eq!(udp_port("/udp/"), None);
    assert_eq!(udp_port("/udp/ 5"), None);
    assert_eq!(udp_port(""), None);
    assert_eq!(udp_port("/tcp/80"), None);
    for text in ["/ip4/127.0.0.1/udp/1/quic-v1", "/ip4/1.1.1.1/tcp/3", "/udp/8/udp/9", "/ip6/::1/udp/77"] {
        assert_eq!(listen_port(&addr(text)), quic_port(&addr(text)));
    }
}

#[test]
fn dial_addresses_carry_the_peer_id() {
    let pid = SecioKeyPair::secp256k1_generated().peer_id().to_base58();
    let listen = addr("/ip4/127.0.0.1/udp/5/quic-v1");
    let dial = dial_addr(&listen, &pid).unwrap();
    assert_eq!(dial, addr(&format!("/ip4/127.0.0.1/udp/5/quic-v1/p2p/{pid}")));
    assert!(dial_addr(&listen, "not base58!").is_none());
    assert_eq!(dialed("/a", "b"), "/a/p2p/b");
}

#[test]
fn half_of_a_mesh_listens_on_tcp() {
    let texts: Vec<&str> = (0..5).map(|i| listen_text_for(i, 5)).collect();
    let tcp = "/ip4/127.0.0.1/tcp/0";
    let quic = "/ip4/127.0.0.1/udp/0/quic-v1";
    assert_eq!(texts, vec![tcp, tcp, quic, quic, quic]);
    assert_eq!(listen_addr_for(0, 6).unwrap(), addr(tcp));
    assert_eq!(listen_addr_for(3, 6).unwrap(), addr(quic));
    assert_eq!(listen_addr_for(0, 1).unwrap(), addr(quic));
}

#[test]
fn unreadable_addresses_are_refused() {
    let mut bad = addr("/ip4/127.0.0.1/udp/5/quic-v1");
    assert!(is_well_formed(&bad));
    bad.push(Protocol::P2P(vec![1, 2, 3].into()));
    assert!(!is_well_formed(&bad));
    assert_eq!(quic_port(&bad), None);
    assert_eq!(listen_port(&bad), None);
    assert_eq!(classify(&bad), None);
    assert!(force_quic_port(&bad, 6).is_none());
    let pid = SecioKeyPair::secp256k1_generated().peer_id().to_base58();
    assert!(dial_addr(&bad, &pid).is_none());
    let forced = force_quic_port(&addr("/dns4/a.b/udp/1"), 2).unwrap();
    assert!(is_well_formed(&forced));
    assert!(is_well_formed(&parse("/ip6/::1/tcp/1/ws").unwrap()));
    assert!(parse("no address").is_none());
}
