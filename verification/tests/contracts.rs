use quic_transport_qa::addr::{classify, transport, Component, Transport};
use quic_transport_qa::contracts::{
    answers_as_owed, count_failed, dial_cases, has_text, idle_close_is_timely, is_echo_of, listener_survived,
    DialOutcome, DoubleDial, KeptSession, Scenario, Seen, Watch, GOOD_MESSAGE,
};
use quic_transport_qa::time::Duration;
use quic_transport_qa::wire::message;
use tentacle::multiaddr::Multiaddr;
use tentacle::quic::error::QuicErrorKind;

const SEC: u128 = 1_000_000_000;

fn addr(s: &str) -> Multiaddr {
    s.parse().unwrap()
}

#[test]
fn addresses_have_a_transport() {
    assert_eq!(classify(&addr("/ip4/127.0.0.1/tcp/80")), Some(Transport::Tcp));
    assert_eq!(classify(&addr("/ip4/127.0.0.1/udp/80/quic-v1")), Some(Transport::Quic));
    assert_eq!(classify(&addr("/ip4/127.0.0.1/tcp/80/quic-v1")), Some(Transport::Quic));
    assert_eq!(classify(&addr("/ip4/127.0.0.1/udp/80")), Some(Transport::Other));
    assert_eq!(transport(&vec![Component::Udp(1), Component::Tcp(2)]), Transport::Tcp);
    assert_eq!(transport(&Vec::new()), Transport::Other);
}

#[test]
fn texts_in_texts() {
    assert!(has_text("abcabd", "abd"));
    assert!(has_text("abc", ""));
    assert!(has_text("", ""));
    assert!(has_text("abc", "abc"));
    assert!(!has_text("abc", "abcd"));
    assert!(!has_text("ab", "ba"));
    assert!(has_text("größer", "öß"));
}

#[test]
fn dials_are_answered_as_owed() {
    let message = format!("{}", QuicErrorKind::NotConfigured);
    let hinted = DialOutcome::NotConfigured { message };
    let silent = DialOutcome::NotConfigured { message: "no".to_string() };
    let holds = |s, o: &DialOutcome| answers_as_owed(s, o, &None);
    assert!(holds(Scenario::Bare, &DialOutcome::NotSupported));
    assert!(!holds(Scenario::Bare, &DialOutcome::Accepted));
    assert!(holds(Scenario::IdentityOnly, &hinted));
    assert!(!holds(Scenario::IdentityOnly, &silent));
    assert!(!holds(Scenario::IdentityOnly, &DialOutcome::NotSupported));
    assert!(holds(Scenario::QuicOnly, &DialOutcome::Misconfigured));
    assert!(!holds(Scenario::QuicOnly, &DialOutcome::OtherError));
    assert!(holds(Scenario::Complete, &DialOutcome::Accepted));
    assert!(!holds(Scenario::Complete, &DialOutcome::InvalidAddress));
    let malformed = Scenario::MalformedAddress;
    assert!(holds(malformed, &DialOutcome::InvalidAddress));
    assert!(!holds(malformed, &DialOutcome::Accepted));
    assert!(answers_as_owed(malformed, &DialOutcome::Accepted, &Some(DialOutcome::InvalidAddress)));
    assert!(!answers_as_owed(malformed, &DialOutcome::Accepted, &Some(DialOutcome::OtherError)));
    assert!(!answers_as_owed(malformed, &DialOutcome::OtherError, &Some(DialOutcome::InvalidAddress)));
}

#[test]
fn every_scenario_is_dialed() {
    let cases: Vec<(Scenario, String)> =
        dial_cases("P").into_iter().map(|c| (c.scenario, c.address)).collect();
    let sound = "/ip4/127.0.0.1/udp/4433/quic-v1".to_string();
    let malformed = Scenario::MalformedAddress;
    assert_eq!(
        cases,
        vec![
            (Scenario::Bare, sound.clone()),
            (Scenario::IdentityOnly, sound.clone()),
            (Scenario::QuicOnly, sound.clone()),
            (Scenario::Complete, sound),
            (malformed, "/ip4/127.0.0.1/tcp/4433/quic-v1".to_string()),
            (malformed, "/ip4/127.0.0.1/udp/4433/quic-v1/p2p/P/p2p/P".to_string()),
            (malformed, "/dns4/example.com/udp/4433/quic-v1".to_string()),
        ]
    );
}

#[test]
fn failed_rows_are_counted() {
    assert_eq!(count_failed(&vec![]), 0);
    assert_eq!(count_failed(&vec![true, true]), 0);
    assert_eq!(count_failed(&vec![false, true, false]), 2);
}

#[test]
fn both_transports_in_one_service() {
    let mut s = Seen::new();
    assert!(!s.on_connected(Transport::Tcp));
    assert!(!s.on_connected(Transport::Other));
    assert!(!s.coexist(true, true, true));
    assert!(s.on_connected(Transport::Quic));
    assert!(s.coexist(true, true, true));
    assert!(!s.coexist(true, false, true));
    assert!(!s.coexist(false, true, true));
    assert!(!s.coexist(true, true, false));
}

#[test]
fn idle_sessions_close_in_their_window() {
    assert!(idle_close_is_timely(Some(Duration::from_secs(2))));
    assert!(idle_close_is_timely(Some(Duration::from_secs(10))));
    assert!(!idle_close_is_timely(Some(Duration::from_nanos(2 * SEC - 1))));
    assert!(!idle_close_is_timely(Some(Duration::from_nanos(10 * SEC + 1))));
    assert!(!idle_close_is_timely(None));
}

#[test]
fn kept_sessions_are_watched() {
    let mut k = KeptSession::new();
    assert_eq!(k.look(0, 10 * SEC), Watch::Broken);
    k.on_connected(5);
    assert_eq!(k.look(5, 10 * SEC), Watch::Watching);
    assert_eq!(k.look(5, 10 * SEC + 5), Watch::Held);
    let mut closed = k;
    closed.on_broken(SEC);
    assert_eq!(closed.look(5, SEC), Watch::Broken);
    assert_eq!(closed.look(5, 20 * SEC), Watch::Broken);
    let mut early = k;
    early.on_broken(5);
    early.on_broken(30 * SEC);
    assert_eq!(early.look(6, 40 * SEC), Watch::Broken);
    let mut late = k;
    late.on_broken(10 * SEC + 5);
    assert_eq!(late.look(5, 11 * SEC), Watch::Held);
    late.on_broken(10 * SEC + 4);
    assert_eq!(late.look(5, 11 * SEC), Watch::Broken);
}

#[test]
fn listeners_survive_a_bad_handshake() {
    let error = "DialerError { QuicError(\"expected peer_id A, got B\") }";
    assert!(listener_survived(Some(error), true));
    assert!(!listener_survived(Some(error), false));
    assert!(!listener_survived(Some("expected peer_id A, got B"), true));
    assert!(!listener_survived(None, true));
    let sent = message(GOOD_MESSAGE.as_bytes().to_vec());
    assert!(is_echo_of(&sent, &message(b"ping-after-bad-handshake".to_vec())));
    assert!(!is_echo_of(&sent, &message(b"ping-after-bad-handshakf".to_vec())));
    assert!(!is_echo_of(&sent, &message(Vec::new())));
}

#[test]
fn double_dials_open_one_session() {
    let mut d = DoubleDial::new();
    assert!(!d.same_address_is_dialed_once());
    d.on_session();
    assert!(d.same_address_is_dialed_once());
    assert!(!d.same_peer_is_dialed_once());
    assert!(!d.is_at_first_address());
    let mut astray = d;
    astray.on_connected(false);
    astray.on_connected(true);
    assert!(!astray.is_at_first_address());
    assert!(!astray.same_peer_is_dialed_once());
    d.on_connected(true);
    d.on_connected(false);
    assert!(d.is_at_first_address());
    assert!(d.same_peer_is_dialed_once());
    d.on_error();
    assert!(!d.same_peer_is_dialed_once());
    d.on_session();
    assert!(!d.same_address_is_dialed_once());
}

#[test]
fn services_are_built_for_their_scenario() {
    let built: Vec<(bool, bool, bool)> = [
        Scenario::Bare,
        Scenario::IdentityOnly,
        Scenario::QuicOnly,
        Scenario::Complete,
        Scenario::MalformedAddress,
    ]
    .iter()
    .map(|s| (s.has_identity(), s.has_quic(), s.may_be_refused_later()))
    .collect();
    assert_eq!(
        built,
        vec![
            (false, false, false),
            (true, false, false),
            (false, true, false),
            (true, true, false),
            (true, true, true),
        ]
    );
}
