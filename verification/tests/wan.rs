use quic_transport_qa::binary64::Binary64;
use quic_transport_qa::env::Environment;
use quic_transport_qa::probe::stamped_message;
use quic_transport_qa::programs::wan_client::{
    bulk_rate, judge, mode_of, server_addr, Action, AddressError, Config, Mode, Run, State,
};
use quic_transport_qa::programs::wan_server;
use quic_transport_qa::session::Wait;
use quic_transport_qa::time::Duration;
use quic_transport_qa::wire::filler;

const SEC: u128 = 1_000_000_000;

fn num(b: Binary64) -> f64 {
    f64::from_bits(b.to_bits())
}

fn of(x: f64) -> Binary64 {
    Binary64::from_bits(x.to_bits())
}

fn env(pairs: &[(&str, &str)]) -> Environment {
    let mut e = Environment::empty();
    for (k, v) in pairs {
        e.capture(k.to_string(), v.to_string(), v.parse::<f64>().ok().map(of));
    }
    e
}

fn config() -> Config {
    Config::from_env(&Environment::empty())
}

fn connected() -> State {
    let mut s = State::new();
    s.on_connected();
    s
}

#[test]
fn wan_server_defaults() {
    let c = wan_server::Config::from_env(&Environment::empty());
    assert_eq!((c.host.as_str(), c.port, c.transport.as_str()), ("0.0.0.0", 9443, "both"));
    assert_eq!(c.advertise, "0.0.0.0");
    assert_eq!(c.idle_timeout, Duration::from_secs(60));
    assert_eq!(c.keep_alive, Duration::from_millis(5000));
    assert_eq!(c.max_frame(), 16 * 1024 * 1024);
    let c = wan_server::Config::from_env(&env(&[("QA_LISTEN_HOST", "10.0.0.1")]));
    assert_eq!(c.advertise, "10.0.0.1");
    let c = wan_server::Config::from_env(&env(&[("QA_LISTEN_PORT", "65536")]));
    assert_eq!(c.port, 9443);
}

#[test]
fn wan_server_listens_on_what_is_asked() {
    let texts = |transport: &str| -> Vec<(bool, String, String)> {
        let c = wan_server::Config::from_env(&env(&[
            ("QA_LISTEN_HOST", "0.0.0.0"),
            ("QA_ADVERTISE_HOST", "1.2.3.4"),
            ("QA_LISTEN_PORT", "9000"),
            ("QA_TRANSPORT", transport),
        ]));
        wan_server::listeners(&c, "QmP").into_iter().map(|l| (l.quic, l.listen, l.dial)).collect()
    };
    let quic = (
        true,
        "/ip4/0.0.0.0/udp/9000/quic-v1".to_string(),
        "/ip4/1.2.3.4/udp/9000/quic-v1/p2p/QmP".to_string(),
    );
    let tcp = (
        false,
        "/ip4/0.0.0.0/tcp/9000".to_string(),
        "/ip4/1.2.3.4/tcp/9000/p2p/QmP".to_string(),
    );
    assert_eq!(texts("both"), vec![quic.clone(), tcp.clone()]);
    assert_eq!(texts("quic"), vec![quic]);
    assert_eq!(texts("tcp"), vec![tcp]);
    assert_eq!(texts("Both"), vec![]);
}

#[test]
fn wan_client_defaults() {
    let c = config();
    assert_eq!(c.mode, "latency");
    assert_eq!((c.payload, c.count, c.bulk_size_mib, c.bulk_count), (256, 200, 2, 8));
    assert_eq!(c.period, Duration::from_millis(50));
    assert_eq!(c.soak, Duration::from_secs(120));
    assert_eq!(c.soak_period, Duration::from_millis(100));
    assert_eq!(c.connect_timeout, Duration::from_secs(30));
    assert_eq!(c.run_timeout, Duration::from_secs(600));
    assert_eq!(c.idle_timeout, Duration::from_secs(60));
    assert_eq!(c.keep_alive, Duration::from_millis(5000));
    assert_eq!(c.max_frame(), 16 * 1024 * 1024);
    assert_eq!((num(c.min_delivery), c.max_p95_ms, num(c.min_bulk_rate)), (0.95, 0, 0.0));
    assert!(c.is_in_range());
    let huge = usize::MAX.to_string();
    assert!(!Config::from_env(&env(&[("QA_BULK_SIZE_MIB", &huge)])).is_in_range());
    assert!(!Config::from_env(&env(&[("QA_PAYLOAD", &huge)])).is_in_range());
    assert!(!Config::from_env(&env(&[("QA_MAX_FRAME_MIB", &huge)])).is_in_range());
}

#[test]
fn the_server_address_is_required() {
    assert_eq!(server_addr(&env(&[])).err(), Some(AddressError::Missing));
    assert_eq!(server_addr(&env(&[("QA_SERVER_ADDR", "nowhere")])).err(), Some(AddressError::Bad));
    let text = "/ip4/1.2.3.4/udp/9443/quic-v1";
    let a = server_addr(&env(&[("QA_SERVER_ADDR", text)])).ok().unwrap();
    assert_eq!(a.to_string(), text);
}

#[test]
fn modes_have_names() {
    assert_eq!(mode_of(&"latency".to_string()), Some(Mode::Latency));
    assert_eq!(mode_of(&"bulk".to_string()), Some(Mode::Bulk));
    assert_eq!(mode_of(&"soak".to_string()), Some(Mode::Soak));
    assert_eq!(mode_of(&"Soak".to_string()), None);
    assert_eq!(mode_of(&String::new()), None);
}

#[test]
fn wan_client_counts_what_it_sees() {
    let mut s = State::new();
    assert_eq!(s.poll_connected(0, 29 * SEC, Duration::from_secs(30)), Wait::Again);
    assert_eq!(s.poll_connected(0, 30 * SEC, Duration::from_secs(30)), Wait::TimedOut);
    s.on_connected();
    assert_eq!(s.poll_connected(0, 30 * SEC, Duration::from_secs(30)), Wait::Done);
    s.on_sent();
    s.on_message(&stamped_message(100, Some(10)), Some(60));
    s.on_message(&filler(0xFF, 5), Some(60));
    assert_eq!((s.sent, s.probe.acked, s.received), (1, 2, 105));
    assert_eq!(s.probe.rtt_ns, vec![50]);
    s.on_disconnected();
    assert!(!s.connected);
    s.on_connected();
    s.on_session_close();
    assert_eq!((s.connected, s.disconnects), (false, 1));
    s.on_shutdown();
    s.on_session_close();
    assert_eq!(s.disconnects, 1);
}

#[test]
fn latency_runs_send_their_pings_and_drain() {
    let mut c = config();
    c.count = 2;
    let mut s = connected();
    let mut run = Run::new(Mode::Latency, 0);
    for _ in 0..2 {
        let a = run.next(&c, &s, SEC);
        assert_eq!(a, Action::Send { size: 256 });
        assert_eq!(run.pause(&c, a), Duration::from_millis(50));
        s.on_sent();
    }
    let a = run.next(&c, &s, 2 * SEC);
    assert_eq!(a, Action::Drain);
    assert_eq!(run.pause(&c, a), Duration::from_millis(50));
    assert_eq!(run.next(&c, &s, 7 * SEC - 1), Action::Drain);
    assert_eq!(run.next(&c, &s, 7 * SEC), Action::Finish);
    s.on_message(&filler(0, 1), None);
    s.on_message(&filler(0, 1), None);
    assert_eq!(run.next(&c, &s, 3 * SEC), Action::Finish);
    assert_eq!(run.pause(&c, Action::Finish), Duration::from_nanos(0));
}

#[test]
fn latency_runs_stop_early() {
    let c = config();
    let mut late = Run::new(Mode::Latency, 0);
    assert_eq!(late.next(&c, &connected(), 600 * SEC), Action::Send { size: 256 });
    assert_eq!(late.next(&c, &connected(), 600 * SEC + 1), Action::Finish);
    let mut waiting = connected();
    waiting.on_sent();
    let mut cut = Run::new(Mode::Bulk, 0);
    cut.draining = Some(599 * SEC);
    assert_eq!(cut.next(&c, &waiting, 600 * SEC), Action::Drain);
    assert_eq!(cut.next(&c, &waiting, 600 * SEC + 1), Action::Finish);
    let mut lost = Run::new(Mode::Latency, 0);
    assert_eq!(lost.next(&c, &State::new(), 1), Action::Finish);
    assert_eq!(lost.draining, Some(1));
    assert_eq!(lost.tried, 0);
}

#[test]
fn bulk_runs_send_without_a_pause() {
    let mut c = config();
    c.bulk_count = 1;
    let mut s = State::new();
    let mut run = Run::new(Mode::Bulk, 0);
    let a = run.next(&c, &s, 0);
    assert_eq!(a, Action::Send { size: 2 * 1024 * 1024 });
    assert_eq!(run.pause(&c, a), Duration::from_nanos(0));
    s.on_sent();
    let a = run.next(&c, &s, SEC);
    assert_eq!(a, Action::Drain);
    assert_eq!(run.pause(&c, a), Duration::from_millis(100));
    assert_eq!(run.next(&c, &s, 60 * SEC), Action::Drain);
    assert_eq!(run.next(&c, &s, 61 * SEC), Action::Finish);
}

#[test]
fn soaks_last_their_time_and_report() {
    let c = config();
    let mut s = connected();
    let mut run = Run::new(Mode::Soak, 0);
    let a = run.next(&c, &s, 0);
    assert_eq!(a, Action::Send { size: 256 });
    assert_eq!(run.pause(&c, a), Duration::from_millis(100));
    assert!(!run.report_due(5 * SEC - 1));
    assert!(run.report_due(5 * SEC));
    assert!(!run.report_due(5 * SEC));
    assert!(run.report_due(10 * SEC));
    s.on_disconnected();
    assert_eq!(run.next(&c, &s, 119 * SEC), Action::Skip);
    s.on_sent();
    assert_eq!(run.next(&c, &s, 120 * SEC), Action::Drain);
    assert!(!run.report_due(500 * SEC));
    let mut short = config();
    short.run_timeout = Duration::from_secs(3);
    let mut run = Run::new(Mode::Soak, 0);
    assert_eq!(run.next(&short, &connected(), 3 * SEC), Action::Finish);
}

#[test]
fn wan_client_verdicts() {
    let mut c = config();
    let state = |sent: usize, acked: usize, rtt: u128| {
        let mut s = State::new();
        s.sent = sent;
        s.probe.acked = acked;
        s.probe.rtt_ns = vec![rtt; acked];
        s.received = acked * 1024 * 1024;
        s
    };
    let span = Duration::from_secs(2);
    let v = judge(&c, Mode::Latency, state(100, 95, 5), span);
    assert!(v.passed());
    assert_eq!((num(v.delivery), v.latency.p95), (0.95, 5));
    assert!(!judge(&c, Mode::Latency, state(100, 94, 5), span).delivered);
    assert!(!judge(&c, Mode::Latency, state(0, 0, 0), span).delivered);
    let mut closed = state(100, 100, 5);
    closed.on_session_close();
    assert!(!judge(&c, Mode::Soak, closed, span).undisturbed);
    c.max_p95_ms = 1;
    assert!(!judge(&c, Mode::Latency, state(10, 10, 1_000_001), span).fast);
    assert!(!judge(&c, Mode::Soak, state(10, 10, 1_000_001), span).fast);
    assert!(judge(&c, Mode::Bulk, state(10, 10, 1_000_001), span).passed());
    c.min_bulk_rate = of(5.0);
    let v = judge(&c, Mode::Bulk, state(10, 10, 0), span);
    assert!(v.passed());
    assert_eq!(num(v.bulk_rate), 5.0);
    assert!(!judge(&c, Mode::Bulk, state(10, 10, 0), Duration::from_millis(2001)).rate_kept);
    assert!(judge(&c, Mode::Latency, state(10, 10, 0), Duration::from_millis(2001)).rate_kept);
}

#[test]
fn bulk_rates_are_mebibytes_per_second() {
    let rate = |bytes: usize, nanos: u128| num(bulk_rate(bytes, Duration::from_nanos(nanos)));
    let secs = std::time::Duration::from_nanos(5_810_000_000).as_secs_f64();
    assert_eq!(rate(33_554_432, 5_810_000_000), 33_554_432f64 / 1024.0 / 1024.0 / secs);
    assert_eq!(rate(1_048_576, 0), 1.0 / 0.001);
    assert_eq!(rate(0, 1_000), 0.0);
}
