//! A client and a server behind a relay that behaves like a wide area
//! network.

use bytes::Bytes;
use vstd::prelude::*;

use crate::addr;
use crate::binary64;
use crate::binary64::Binary64;
use crate::env;
use crate::env::Environment;
use crate::probe;
use crate::probe::Probe;
use crate::relay::WanCfg;
use crate::rounding;
use crate::stats;
use crate::stats::Percentiles;
use crate::text;
use crate::time;
use crate::time::Duration;
use crate::workload;
use crate::workload::Paced;

verus! {

/// Seconds in a window.
pub const WINDOW_SECS: u64 = 5;

/// The settings of a run.
#[derive(Clone, Copy, PartialEq, Eq, Structural, Debug)]
pub struct Config {
    /// The round trip that the relay adds; each direction gets half of it.
    pub rtt_ms: u64,
    pub jitter_ms: u64,
    /// The share of datagrams that the relay drops, in percent.
    pub loss_pct: Binary64,
    pub secs: u64,
    /// The period of the messages.
    pub period: Duration,
    /// Bytes in a message.
    pub payload: usize,
    pub idle_timeout: Duration,
    pub keep_alive: Duration,
    /// The least share of messages that must come back.
    pub min_delivery: Binary64,
    /// The cap on the 95th percentile of the round trips; zero for none.
    pub max_p95_ms: u64,
}

impl Config {
    /// The settings that an environment asks for.
    pub fn from_env(e: &Environment) -> (r: Config)
        ensures
            r.rtt_ms == env::asked_whole(e, "QA_WAN_RTT_MS"@, u64::MAX as nat, 80),
            r.jitter_ms == env::asked_whole(e, "QA_WAN_JITTER_MS"@, u64::MAX as nat, 20),
            match e.number_of("QA_WAN_LOSS_PCT"@) {
                Some(n) => r.loss_pct == n,
                None => r.loss_pct@ == binary64::Value::of(1),
            },
            r.secs == env::asked_whole(e, "QA_WAN_DURATION_SECS"@, u64::MAX as nat, 30),
            r.period.nanos == env::asked_whole(e, "QA_WAN_PERIOD_MS"@, u64::MAX as nat, 50)
                * time::NANOS_PER_MILLI,
            r.payload == env::asked_whole(e, "QA_WAN_PAYLOAD"@, usize::MAX as nat, 256),
            r.idle_timeout.nanos == env::asked_whole(
                e,
                "QA_WAN_IDLE_TIMEOUT_S"@,
                u64::MAX as nat,
                30,
            ) * time::NANOS_PER_SEC,
            r.keep_alive.nanos == env::asked_whole(
                e,
                "QA_WAN_KEEPALIVE_MS"@,
                u64::MAX as nat,
                2000,
            ) * time::NANOS_PER_MILLI,
            match e.number_of("QA_WAN_MIN_DELIVERY"@) {
                Some(n) => r.min_delivery == n,
                None => r.min_delivery@ == binary64::Value::ratio(85, 100),
            },
            r.max_p95_ms == env::asked_whole(e, "QA_WAN_MAX_LAT_P95_MS"@, u64::MAX as nat, 0),
    {
        let rtt_ms: u64 = env::env_or(e, "QA_WAN_RTT_MS", 80u64);
        let jitter_ms: u64 = env::env_or(e, "QA_WAN_JITTER_MS", 20u64);
        let secs: u64 = env::env_or(e, "QA_WAN_DURATION_SECS", 30u64);
        let payload: usize = env::env_or(e, "QA_WAN_PAYLOAD", 256usize);
        let max_p95_ms: u64 = env::env_or(e, "QA_WAN_MAX_LAT_P95_MS", 0u64);
        Config {
            rtt_ms,
            jitter_ms,
            loss_pct: env::env_number_or(e, "QA_WAN_LOSS_PCT", Binary64::of(1)),
            secs,
            period: env::duration_millis(e, "QA_WAN_PERIOD_MS", 50),
            payload,
            idle_timeout: env::duration_secs(e, "QA_WAN_IDLE_TIMEOUT_S", 30),
            keep_alive: env::duration_millis(e, "QA_WAN_KEEPALIVE_MS", 2000),
            min_delivery: env::env_number_or(
                e,
                "QA_WAN_MIN_DELIVERY",
                Binary64::ratio(85, 100),
            ),
            max_p95_ms,
        }
    }

    /// Whether the spans and sizes of a run stay in the range of the machine.
    pub open spec fn in_range(self) -> bool {
        &&& self.rtt_ms <= u64::MAX / 5
        &&& self.payload <= isize::MAX as usize
        &&& (WanCfg {
            one_way_ms: self.rtt_ms / 2,
            jitter_ms: self.jitter_ms,
            loss_pct: self.loss_pct,
        }).in_range()
    }

    /// Whether the spans and sizes of a run stay in the range of the machine.
    pub fn is_in_range(&self) -> (r: bool)
        ensures
            r == self.in_range(),
    {
        self.rtt_ms <= u64::MAX / 5 && self.payload <= isize::MAX as usize
            && self.relay().is_in_range()
    }

    /// What the relay does.
    pub fn relay(&self) -> (r: WanCfg)
        ensures
            r == (WanCfg {
                one_way_ms: self.rtt_ms / 2,
                jitter_ms: self.jitter_ms,
                loss_pct: self.loss_pct,
            }),
    {
        WanCfg {
            one_way_ms: self.rtt_ms / 2,
            jitter_ms: self.jitter_ms,
            loss_pct: self.loss_pct,
        }
    }

    /// How long the first connection may take: four round trips, at least
    /// five seconds and at most thirty.
    pub fn handshake_budget(&self) -> (r: Duration)
        requires
            self.in_range(),
        ensures
            r.nanos == (if self.rtt_ms * 4 < 5_000 {
                5_000
            } else if self.rtt_ms * 4 > 30_000 {
                30_000
            } else {
                self.rtt_ms * 4
            }) * time::NANOS_PER_MILLI,
    {
        Duration::from_millis(clamp(self.rtt_ms * 4, 5_000, 30_000))
    }

    /// How long the last answers may take: five round trips, at least one
    /// second and at most ten.
    pub fn drain(&self) -> (r: Duration)
        requires
            self.in_range(),
        ensures
            r.nanos == (if self.rtt_ms * 5 < 1_000 {
                1_000
            } else if self.rtt_ms * 5 > 10_000 {
                10_000
            } else {
                self.rtt_ms * 5
            }) * time::NANOS_PER_MILLI,
    {
        Duration::from_millis(clamp(self.rtt_ms * 5, 1_000, 10_000))
    }

    /// The workload of a run that starts now.
    pub fn workload(&self, now: u128) -> (r: Paced)
        ensures
            r == (Paced {
                total: workload::iterations(self.secs as nat, self.period) as usize,
                sent: 0,
                failed: false,
                window: Duration { nanos: 5_000_000_000 },
                window_start: now,
                window_acked: 0,
            }),
            r.in_bounds(),
    {
        let total: usize = workload::total_iterations(self.secs, self.period);
        Paced::new(total, Duration::from_secs(WINDOW_SECS), now)
    }

    /// The message that is sent now.
    pub fn message(&self, since_epoch: Option<u128>) -> (r: Bytes)
        requires
            self.in_range(),
        ensures
            crate::wire::contents(r) == crate::wire::stamped(
                self.payload as nat,
                probe::clock(since_epoch) as nat,
            ),
    {
        probe::stamped_message(self.payload, since_epoch)
    }
}

fn clamp(n: u64, least: u64, most: u64) -> (r: u64)
    requires
        least <= most,
    ensures
        r == (if n < least {
            least
        } else if n > most {
            most
        } else {
            n
        }),
{
    if n < least {
        least
    } else if n > most {
        most
    } else {
        n
    }
}

/// The text of the address under which a client dials the server through the
/// relay.
pub open spec fn relay_dial(relay_port: nat, peer_id: Seq<char>) -> Seq<char> {
    addr::dial_text(
        "/ip4/127.0.0.1/udp/"@ + text::decimal(relay_port) + "/quic-v1"@,
        peer_id,
    )
}

/// The text of the address under which a client dials the server through the
/// relay.
pub fn relay_dial_text(relay_port: u16, peer_id: &str) -> (r: String)
    ensures
        r@ == relay_dial(relay_port as nat, peer_id@),
{
    let mut listen: String = "/ip4/127.0.0.1/udp/".to_owned();
    text::push_decimal(&mut listen, relay_port as u128);
    listen.append("/quic-v1");
    addr::dialed(listen.as_str(), peer_id)
}

/// The outcome of a run.
#[derive(Clone, Copy, PartialEq, Eq, Structural, Debug)]
pub struct Verdict {
    pub loss: usize,
    pub delivery: Binary64,
    pub latency: Percentiles,
    /// Whether every message could be sent.
    pub all_sent: bool,
    /// Whether the session stayed open.
    pub undisturbed: bool,
    /// Whether enough messages came back.
    pub delivered: bool,
    /// Whether the round trips kept the cap.
    pub fast: bool,
}

impl Verdict {
    pub open spec fn is_pass(self) -> bool {
        self.all_sent && self.undisturbed && self.delivered && self.fast
    }

    /// Whether the run passed.
    pub fn passed(self) -> (r: bool)
        ensures
            r == self.is_pass(),
    {
        self.all_sent && self.undisturbed && self.delivered && self.fast
    }
}

/// Judges a run.
pub fn judge(cfg: &Config, run: &Paced, probe: Probe, disconnects: u64) -> (r: Verdict)
    ensures
        r.loss == workload::unanswered(run.sent as nat, probe.acked as nat),
        r.delivery@ == stats::delivery_value(probe.acked as nat, run.sent as nat),
        stats::percentiles_of(probe.rtt_ns@, r.latency),
        r.all_sent == !run.failed,
        r.undisturbed == (disconnects == 0),
        r.delivered == !r.delivery@.less(cfg.min_delivery@),
        r.fast == stats::within_cap(r.latency.p95 as nat, cfg.max_p95_ms as nat),
{
    let delivery: Binary64 = stats::delivery(probe.acked, run.sent);
    let loss: usize = workload::loss(run.sent, probe.acked);
    let latency: Percentiles = stats::percentiles(probe.rtt_ns);
    Verdict {
        loss,
        delivery,
        latency,
        all_sent: !run.failed,
        undisturbed: disconnects == 0,
        delivered: !delivery.less(cfg.min_delivery),
        fast: stats::keeps_cap(latency.p95, cfg.max_p95_ms),
    }
}

/// A client dials the relay's port on the loopback interface, over QUIC, for
/// the peer of the server.
pub proof fn law_relay_is_dialed_on_its_port(relay_port: nat, peer_id: Seq<char>)
    ensures
        relay_dial(relay_port, peer_id) == "/ip4/127.0.0.1/udp/"@ + text::decimal(relay_port)
            + "/quic-v1"@ + "/p2p/"@ + peer_id,
{
}

/// A run passes exactly where every part of its verdict holds.
pub proof fn law_pass_needs_every_part(v: Verdict)
    ensures
        v.is_pass() <==> v.all_sent && v.undisturbed && v.delivered && v.fast,
{
}

/// Settings are in range exactly where five round trips are a number of
/// milliseconds, a message can be held in memory, and half a round trip and the
/// jitter are together a signed number of milliseconds.
pub proof fn law_settings_fit_the_machine(cfg: Config)
    ensures
        cfg.in_range() <==> 5 * cfg.rtt_ms <= u64::MAX && cfg.payload <= isize::MAX && cfg.jitter_ms
            <= 0x3FFF_FFFF_FFFF_FFFF && cfg.rtt_ms / 2 + cfg.jitter_ms <= i64::MAX,
{
}

/// A run passes exactly where every message could be sent, the session stayed
/// open, the answers are a large enough share of the messages, and the 95th
/// percentile of the round trips keeps the cap.
pub proof fn law_verdict_weighs_delivery_and_latency(
    cfg: Config,
    run: Paced,
    probe: Probe,
    disconnects: u64,
    sorted: Seq<u128>,
    v: Verdict,
)
    requires
        call_ensures(judge, (&cfg, &run, probe, disconnects), v),
        0 < run.sent <= rounding::SIGNIFICAND_LIMIT,
        probe.acked <= rounding::SIGNIFICAND_LIMIT,
        0 < sorted.len() <= 0x2000_0000_0000,
        forall|i: int, j: int| 0 <= i <= j < sorted.len() ==> sorted[i] <= sorted[j],
        sorted.to_multiset() == probe.rtt_ns@.to_multiset(),
        cfg.max_p95_ms <= u32::MAX,
    ensures
        v.is_pass() <==> !run.failed && disconnects == 0 && !binary64::Value::ratio(
            probe.acked as nat,
            run.sent as nat,
        ).less(cfg.min_delivery@) && (cfg.max_p95_ms == 0 || sorted[((sorted.len() - 1) * 95 + 50)
            / 100] <= cfg.max_p95_ms * 1_000_000),
        probe.acked <= run.sent ==> v.loss + probe.acked == run.sent,
{
    probe.rtt_ns@.to_multiset_ensures();
    sorted.to_multiset_ensures();
    stats::law_percentiles_are_the_samples_at_their_rank(probe.rtt_ns@, sorted, v.latency);
    stats::law_cap_is_exact(v.latency.p95, cfg.max_p95_ms);
    stats::law_delivery_is_answered_over_sent(probe.acked as nat, run.sent as nat);
}

/// Each direction gets half of the round trip, rounded down, and all of the
/// jitter and the loss; the waits grow with the round trip between their
/// bounds.
pub proof fn law_relay_halves_the_round_trip(cfg: Config, relay: WanCfg, first: Duration, last: Duration)
    requires
        call_ensures(Config::relay, (&cfg,), relay),
        call_ensures(Config::handshake_budget, (&cfg,), first),
        call_ensures(Config::drain, (&cfg,), last),
    ensures
        2 * relay.one_way_ms <= cfg.rtt_ms <= 2 * relay.one_way_ms + 1,
        relay.jitter_ms == cfg.jitter_ms && relay.loss_pct == cfg.loss_pct,
        5_000_000_000 <= first.nanos <= 30_000_000_000,
        1250 <= cfg.rtt_ms <= 7500 ==> first.nanos == 4_000_000 * cfg.rtt_ms,
        1_000_000_000 <= last.nanos <= 10_000_000_000,
        200 <= cfg.rtt_ms <= 2000 ==> last.nanos == 5_000_000 * cfg.rtt_ms,
{
}

} // verus!
