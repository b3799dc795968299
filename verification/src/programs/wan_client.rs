//! The client of a run over a real wide area network: it measures latency,
//! moves bulk data, or keeps a session busy for a long time.

use bytes::Bytes;
use tentacle::multiaddr::Multiaddr;
use vstd::arithmetic::power2::*;
use vstd::prelude::*;

use crate::addr;
use crate::binary64;
use crate::binary64::Binary64;
use crate::env;
use crate::env::Environment;
use crate::probe;
use crate::probe::Probe;
use crate::resources::MIB;
use crate::rounding;
use crate::session;
use crate::session::Wait;
use crate::stats;
use crate::stats::Percentiles;
use crate::time;
use crate::time::Duration;
use crate::wire;

verus! {

/// Milliseconds between two looks at the connection.
pub const CONNECT_POLL_MS: u64 = 50;

/// Seconds between two reports of a soak.
pub const REPORT_SECS: u64 = 5;

/// Why there is no server to dial.
#[derive(Clone, Copy, PartialEq, Eq, Structural, Debug)]
pub enum AddressError {
    /// No address is given.
    Missing,
    /// The address given is none.
    Bad,
}

/// The address of the server that an environment names.
pub fn server_addr(e: &Environment) -> (r: Result<Multiaddr, AddressError>)
    ensures
        match e.text_of("QA_SERVER_ADDR"@) {
            None => r matches Err(AddressError::Missing),
            Some(text) => match addr::parsed(text) {
                None => r matches Err(AddressError::Bad),
                Some(parts) => r matches Ok(a) && addr::well_formed(a) && addr::parts(a) == parts,
            },
        },
{
    match e.text("QA_SERVER_ADDR") {
        None => Err(AddressError::Missing),
        Some(text) => match addr::parse(text.as_str()) {
            Some(a) => Ok(a),
            None => Err(AddressError::Bad),
        },
    }
}

/// What a run does.
#[derive(Clone, Copy, PartialEq, Eq, Structural, Debug)]
pub enum Mode {
    /// Paced pings.
    Latency,
    /// Large messages, one after another.
    Bulk,
    /// Pings for a span of time.
    Soak,
}

/// The mode that a text names.
pub open spec fn mode_named(text: Seq<char>) -> Option<Mode> {
    if text == "latency"@ {
        Some(Mode::Latency)
    } else if text == "bulk"@ {
        Some(Mode::Bulk)
    } else if text == "soak"@ {
        Some(Mode::Soak)
    } else {
        None
    }
}

/// The mode that a text names.
pub fn mode_of(text: &String) -> (r: Option<Mode>)
    ensures
        r == mode_named(text@),
{
    let latency: String = "latency".to_owned();
    let bulk: String = "bulk".to_owned();
    let soak: String = "soak".to_owned();
    if *text == latency {
        Some(Mode::Latency)
    } else if *text == bulk {
        Some(Mode::Bulk)
    } else if *text == soak {
        Some(Mode::Soak)
    } else {
        None
    }
}

/// The settings of a run.
pub struct Config {
    pub mode: String,
    /// Bytes in a ping.
    pub payload: usize,
    /// Pings in a latency run.
    pub count: usize,
    /// The period of the pings in a latency run.
    pub period: Duration,
    /// Mebibytes in a bulk message.
    pub bulk_size_mib: usize,
    /// Messages in a bulk run.
    pub bulk_count: usize,
    /// The length of a soak.
    pub soak: Duration,
    /// The period of the pings in a soak.
    pub soak_period: Duration,
    pub connect_timeout: Duration,
    /// The longest that any run may take.
    pub run_timeout: Duration,
    pub idle_timeout: Duration,
    pub keep_alive: Duration,
    /// The largest frame, in mebibytes.
    pub max_frame_mib: usize,
    /// The least share of messages that must come back.
    pub min_delivery: Binary64,
    /// The cap on the 95th percentile of the round trips; zero for none.
    pub max_p95_ms: u64,
    /// The least mebibytes per second in a bulk run; zero for none.
    pub min_bulk_rate: Binary64,
}

impl Config {
    /// The settings that an environment asks for.
    pub fn from_env(e: &Environment) -> (r: Config)
        ensures
            r.mode@ == env::asked_text(e, "QA_MODE"@, "latency"@),
            r.payload == env::asked_whole(e, "QA_PAYLOAD"@, usize::MAX as nat, 256),
            r.count == env::asked_whole(e, "QA_COUNT"@, usize::MAX as nat, 200),
            r.period.nanos == env::asked_whole(e, "QA_PERIOD_MS"@, u64::MAX as nat, 50)
                * time::NANOS_PER_MILLI,
            r.bulk_size_mib == env::asked_whole(e, "QA_BULK_SIZE_MIB"@, usize::MAX as nat, 2),
            r.bulk_count == env::asked_whole(e, "QA_BULK_COUNT"@, usize::MAX as nat, 8),
            r.soak.nanos == env::asked_whole(e, "QA_DURATION_SECS"@, u64::MAX as nat, 120)
                * time::NANOS_PER_SEC,
            r.soak_period.nanos == env::asked_whole(e, "QA_SOAK_PERIOD_MS"@, u64::MAX as nat, 100)
                * time::NANOS_PER_MILLI,
            r.connect_timeout.nanos == env::asked_whole(
                e,
                "QA_CONNECT_TIMEOUT_S"@,
                u64::MAX as nat,
                30,
            ) * time::NANOS_PER_SEC,
            r.run_timeout.nanos == env::asked_whole(e, "QA_RUN_TIMEOUT_S"@, u64::MAX as nat, 600)
                * time::NANOS_PER_SEC,
            r.idle_timeout.nanos == env::asked_whole(
                e,
                "QA_IDLE_TIMEOUT_S"@,
                u64::MAX as nat,
                60,
            ) * time::NANOS_PER_SEC,
            r.keep_alive.nanos == env::asked_whole(e, "QA_KEEPALIVE_MS"@, u64::MAX as nat, 5000)
                * time::NANOS_PER_MILLI,
            r.max_frame_mib == env::asked_whole(e, "QA_MAX_FRAME_MIB"@, usize::MAX as nat, 16),
            match e.number_of("QA_MIN_DELIVERY"@) {
                Some(n) => r.min_delivery == n,
                None => r.min_delivery@ == binary64::Value::ratio(95, 100),
            },
            r.max_p95_ms == env::asked_whole(e, "QA_MAX_P95_MS"@, u64::MAX as nat, 0),
            match e.number_of("QA_MIN_BULK_MBPS"@) {
                Some(n) => r.min_bulk_rate == n,
                None => r.min_bulk_rate@ == binary64::Value::of(0),
            },
    {
        let mode: String = env::env_or(e, "QA_MODE", "latency".to_owned());
        let payload: usize = env::env_or(e, "QA_PAYLOAD", 256usize);
        let count: usize = env::env_or(e, "QA_COUNT", 200usize);
        let bulk_size_mib: usize = env::env_or(e, "QA_BULK_SIZE_MIB", 2usize);
        let bulk_count: usize = env::env_or(e, "QA_BULK_COUNT", 8usize);
        let max_frame_mib: usize = env::env_or(e, "QA_MAX_FRAME_MIB", 16usize);
        let max_p95_ms: u64 = env::env_or(e, "QA_MAX_P95_MS", 0u64);
        Config {
            mode,
            payload,
            count,
            period: env::duration_millis(e, "QA_PERIOD_MS", 50),
            bulk_size_mib,
            bulk_count,
            soak: env::duration_secs(e, "QA_DURATION_SECS", 120),
            soak_period: env::duration_millis(e, "QA_SOAK_PERIOD_MS", 100),
            connect_timeout: env::duration_secs(e, "QA_CONNECT_TIMEOUT_S", 30),
            run_timeout: env::duration_secs(e, "QA_RUN_TIMEOUT_S", 600),
            idle_timeout: env::duration_secs(e, "QA_IDLE_TIMEOUT_S", 60),
            keep_alive: env::duration_millis(e, "QA_KEEPALIVE_MS", 5000),
            max_frame_mib,
            min_delivery: env::env_number_or(e, "QA_MIN_DELIVERY", Binary64::ratio(95, 100)),
            max_p95_ms,
            min_bulk_rate: env::env_number_or(e, "QA_MIN_BULK_MBPS", Binary64::of(0)),
        }
    }

    /// Whether messages and frames fit in memory.
    pub open spec fn in_range(&self) -> bool {
        &&& self.payload <= isize::MAX as usize
        &&& self.bulk_size_mib * MIB <= isize::MAX
        &&& self.max_frame_mib * MIB <= usize::MAX
    }

    /// Whether messages and frames fit in memory.
    pub fn is_in_range(&self) -> (r: bool)
        ensures
            r == self.in_range(),
    {
        proof {
            assert(self.bulk_size_mib * MIB <= u128::MAX && self.max_frame_mib * MIB <= u128::MAX)
                by (nonlinear_arith)
                requires
                    self.bulk_size_mib <= u64::MAX,
                    self.max_frame_mib <= u64::MAX,
                    MIB <= u64::MAX,
            ;
        }
        self.payload <= isize::MAX as usize && self.bulk_size_mib as u128 * MIB as u128
            <= isize::MAX as u128 && self.max_frame_mib as u128 * MIB as u128
            <= usize::MAX as u128
    }

    /// The largest frame, in bytes.
    pub fn max_frame(&self) -> (r: usize)
        requires
            self.in_range(),
        ensures
            r == self.max_frame_mib * MIB,
    {
        self.max_frame_mib * MIB
    }
}

/// What the client has seen.
pub struct State {
    pub sent: usize,
    pub probe: Probe,
    /// Sessions that closed before the client shut down.
    pub disconnects: u64,
    pub connected: bool,
    pub shutting_down: bool,
    /// Bytes that came back.
    pub received: usize,
}

impl State {
    pub fn new() -> (r: State)
        ensures
            r.sent == 0,
            r.probe.acked == 0,
            r.probe.rtt_ns@ == Seq::<u128>::empty(),
            r.disconnects == 0,
            !r.connected,
            !r.shutting_down,
            r.received == 0,
    {
        State {
            sent: 0,
            probe: Probe::new(),
            disconnects: 0,
            connected: false,
            shutting_down: false,
            received: 0,
        }
    }

    /// The protocol opened.
    pub fn on_connected(&mut self)
        ensures
            *final(self) == (State { connected: true, ..*old(self) }),
    {
        self.connected = true;
    }

    /// The protocol closed.
    pub fn on_disconnected(&mut self)
        ensures
            *final(self) == (State { connected: false, ..*old(self) }),
    {
        self.connected = false;
    }

    /// The session closed, which counts unless the client shuts down.
    pub fn on_session_close(&mut self)
        ensures
            *final(self) == (State {
                connected: false,
                disconnects: if old(self).shutting_down {
                    old(self).disconnects
                } else {
                    old(self).disconnects.wrapping_add(1)
                },
                ..*old(self)
            }),
    {
        if !self.shutting_down {
            self.disconnects = self.disconnects.wrapping_add(1);
        }
        self.connected = false;
    }

    /// The client shuts down.
    pub fn on_shutdown(&mut self)
        ensures
            *final(self) == (State { shutting_down: true, ..*old(self) }),
    {
        self.shutting_down = true;
    }

    /// A message was sent.
    pub fn on_sent(&mut self)
        ensures
            *final(self) == (State { sent: old(self).sent.wrapping_add(1), ..*old(self) }),
    {
        self.sent = self.sent.wrapping_add(1);
    }

    /// A message came back.
    pub fn on_message(&mut self, data: &Bytes, since_epoch: Option<u128>)
        ensures
            final(self).sent == old(self).sent,
            final(self).disconnects == old(self).disconnects,
            final(self).connected == old(self).connected,
            final(self).shutting_down == old(self).shutting_down,
            final(self).received == old(self).received.wrapping_add(
                wire::contents(*data).len() as usize,
            ),
            final(self).probe.acked == old(self).probe.acked.wrapping_add(1),
            final(self).probe.rtt_ns@ == (match wire::rtt_of(
                wire::contents(*data),
                probe::clock(since_epoch) as nat,
            ) {
                Some(ns) => old(self).probe.rtt_ns@.push(ns as u128),
                None => old(self).probe.rtt_ns@,
            }),
    {
        self.received = self.received.wrapping_add(wire::message_len(data));
        self.probe.on_message(data, since_epoch);
    }

    /// How the wait for the connection goes on.
    pub fn poll_connected(&self, started: u128, now: u128, timeout: Duration) -> (r: Wait)
        ensures
            r == session::wait_state(self.connected, started, now, timeout),
    {
        session::poll(self.connected, started, now, timeout)
    }
}

/// What the driver does next.
#[derive(Clone, Copy, PartialEq, Eq, Structural, Debug)]
pub enum Action {
    /// Send a message of a size.
    Send { size: usize },
    /// Send nothing this time, because there is no connection.
    Skip,
    /// Wait for messages to come back.
    Drain,
    /// End the run.
    Finish,
}

/// Where a run stands. Instants are in nanoseconds.
#[derive(Clone, Copy, PartialEq, Eq, Structural, Debug)]
pub struct Run {
    pub mode: Mode,
    pub started: u128,
    /// How many messages were tried.
    pub tried: usize,
    /// Since when no more is sent.
    pub draining: Option<u128>,
    pub reported: u128,
}

/// Whether a run sends no more.
pub open spec fn sending_over(run: Run, cfg: &Config, connected: bool, now: u128) -> bool {
    let elapsed = time::between(run.started as nat, now as nat);
    match run.mode {
        Mode::Latency => run.tried >= cfg.count || elapsed > cfg.run_timeout.nanos || !connected,
        Mode::Bulk => run.tried >= cfg.bulk_count || elapsed > cfg.run_timeout.nanos,
        Mode::Soak => elapsed >= cfg.soak.nanos || elapsed >= cfg.run_timeout.nanos,
    }
}

/// How long a run waits for messages to come back.
pub open spec fn drain_limit(mode: Mode) -> nat {
    (match mode {
        Mode::Bulk => 60nat,
        _ => 5nat,
    }) * time::NANOS_PER_SEC as nat
}

/// Whether a run has waited enough for messages to come back, or has them all,
/// or may not take any longer.
pub open spec fn drained(run: Run, cfg: &Config, state: &State, since: u128, now: u128) -> bool {
    ||| time::between(since as nat, now as nat) >= drain_limit(run.mode)
    ||| state.probe.acked >= state.sent
    ||| time::between(run.started as nat, now as nat) > cfg.run_timeout.nanos
}

impl Run {
    /// A run that starts now.
    pub fn new(mode: Mode, now: u128) -> (r: Run)
        ensures
            r == (Run { mode, started: now, tried: 0, draining: None, reported: now }),
    {
        Run { mode, started: now, tried: 0, draining: None, reported: now }
    }

    fn is_sending_over(&self, cfg: &Config, connected: bool, now: u128) -> (r: bool)
        ensures
            r == sending_over(*self, cfg, connected, now),
    {
        let elapsed: u128 = time::elapsed(self.started, now).nanos;
        match self.mode {
            Mode::Latency => self.tried >= cfg.count || elapsed > cfg.run_timeout.nanos
                || !connected,
            Mode::Bulk => self.tried >= cfg.bulk_count || elapsed > cfg.run_timeout.nanos,
            Mode::Soak => elapsed >= cfg.soak.nanos || elapsed >= cfg.run_timeout.nanos,
        }
    }

    fn is_drained(&self, cfg: &Config, state: &State, since: u128, now: u128) -> (r: bool)
        ensures
            r == drained(*self, cfg, state, since, now),
    {
        let limit: Duration = match self.mode {
            Mode::Bulk => Duration::from_secs(60),
            _ => Duration::from_secs(5),
        };
        time::elapsed(since, now).nanos >= limit.nanos || state.probe.acked >= state.sent
            || time::elapsed(self.started, now).nanos > cfg.run_timeout.nanos
    }

    /// Decides what the driver does next.
    pub fn next(&mut self, cfg: &Config, state: &State, now: u128) -> (r: Action)
        requires
            cfg.in_range(),
        ensures
            final(self).mode == old(self).mode,
            final(self).started == old(self).started,
            final(self).reported == old(self).reported,
            old(self).draining is None && !sending_over(*old(self), cfg, state.connected, now)
                ==> {
                &&& final(self).draining is None
                &&& match old(self).mode {
                    Mode::Latency => r == (Action::Send { size: cfg.payload }) && final(self).tried == old(self).tried + 1,
                    Mode::Bulk => r == (Action::Send {
                        size: (cfg.bulk_size_mib * MIB) as usize,
                    }) && final(self).tried == old(self).tried + 1,
                    Mode::Soak => r == (if state.connected {
                        Action::Send { size: cfg.payload }
                    } else {
                        Action::Skip
                    }) && final(self).tried == old(self).tried,
                }
            },
            old(self).draining is Some || sending_over(*old(self), cfg, state.connected, now)
                ==> {
                &&& final(self).tried == old(self).tried
                &&& final(self).draining == (match old(self).draining {
                    Some(since) => Some(since),
                    None => Some(now),
                })
                &&& r == (if drained(*old(self), cfg, state, final(self).draining->0, now) {
                    Action::Finish
                } else {
                    Action::Drain
                })
            },
    {
        if self.draining.is_none() {
            if !self.is_sending_over(cfg, state.connected, now) {
                return match self.mode {
                    Mode::Latency => {
                        self.tried = self.tried + 1;
                        Action::Send { size: cfg.payload }
                    },
                    Mode::Bulk => {
                        self.tried = self.tried + 1;
                        Action::Send { size: cfg.bulk_size_mib * MIB }
                    },
                    Mode::Soak => if state.connected {
                        Action::Send { size: cfg.payload }
                    } else {
                        Action::Skip
                    },
                };
            }
            self.draining = Some(now);
        }
        let since: u128 = match self.draining {
            Some(since) => since,
            None => now,
        };
        if self.is_drained(cfg, state, since, now) {
            Action::Finish
        } else {
            Action::Drain
        }
    }

    /// How long the driver sleeps behind an action.
    pub fn pause(&self, cfg: &Config, action: Action) -> (r: Duration)
        ensures
            r.nanos == (match action {
                Action::Finish => 0,
                Action::Drain => (match self.mode {
                    Mode::Bulk => 100,
                    _ => 50int,
                }) * time::NANOS_PER_MILLI,
                _ => match self.mode {
                    Mode::Latency => cfg.period.nanos as int,
                    Mode::Bulk => 0,
                    Mode::Soak => cfg.soak_period.nanos as int,
                },
            }),
    {
        match action {
            Action::Finish => Duration::from_nanos(0),
            Action::Drain => match self.mode {
                Mode::Bulk => Duration::from_millis(100),
                _ => Duration::from_millis(50),
            },
            _ => match self.mode {
                Mode::Latency => cfg.period,
                Mode::Bulk => Duration::from_nanos(0),
                Mode::Soak => cfg.soak_period,
            },
        }
    }

    /// Whether a soak reports now; a report is not due again for some seconds.
    pub fn report_due(&mut self, now: u128) -> (r: bool)
        ensures
            r == (old(self).mode is Soak && old(self).draining is None && time::between(
                old(self).reported as nat,
                now as nat,
            ) >= 5_000_000_000),
            *final(self) == (Run {
                reported: if r {
                    now
                } else {
                    old(self).reported
                },
                ..*old(self)
            }),
    {
        let due: bool = self.mode == Mode::Soak && self.draining.is_none() && time::elapsed(
            self.reported,
            now,
        ).nanos >= REPORT_SECS as u128 * time::NANOS_PER_SEC;
        if due {
            self.reported = now;
        }
        due
    }
}

/// Mebibytes per second that came back, as if a run took a millisecond at
/// least.
pub open spec fn bulk_rate_value(received: nat, elapsed: Duration) -> binary64::Value {
    binary64::Value::of(received).over(binary64::Value::of(1024)).over(
        binary64::Value::of(1024),
    ).over(elapsed.secs_value().larger(binary64::Value::ratio(1, 1000)))
}

/// Mebibytes per second that came back.
pub fn bulk_rate(received: usize, elapsed: Duration) -> (r: Binary64)
    ensures
        r@ == bulk_rate_value(received as nat, elapsed),
{
    let kib: Binary64 = Binary64::of(1024);
    Binary64::of(received as u128).over(kib).over(kib).over(
        elapsed.as_secs_number().larger(Binary64::ratio(1, 1000)),
    )
}

/// The outcome of a run.
#[derive(Clone, Copy, PartialEq, Eq, Structural, Debug)]
pub struct Verdict {
    pub delivery: Binary64,
    pub latency: Percentiles,
    pub bulk_rate: Binary64,
    /// Whether the session stayed open.
    pub undisturbed: bool,
    /// Whether enough messages came back.
    pub delivered: bool,
    /// Whether the round trips kept the cap, which holds for pings.
    pub fast: bool,
    /// Whether the data moved fast enough, which holds for bulk data.
    pub rate_kept: bool,
}

impl Verdict {
    pub open spec fn is_pass(self) -> bool {
        self.undisturbed && self.delivered && self.fast && self.rate_kept
    }

    /// Whether the run passed.
    pub fn passed(self) -> (r: bool)
        ensures
            r == self.is_pass(),
    {
        self.undisturbed && self.delivered && self.fast && self.rate_kept
    }
}

/// Judges a run that took a span of time.
pub fn judge(cfg: &Config, mode: Mode, state: State, elapsed: Duration) -> (r: Verdict)
    ensures
        r.delivery@ == stats::delivery_value(state.probe.acked as nat, state.sent as nat),
        stats::percentiles_of(state.probe.rtt_ns@, r.latency),
        r.bulk_rate@ == bulk_rate_value(state.received as nat, elapsed),
        r.undisturbed == (state.disconnects == 0),
        r.delivered == !r.delivery@.less(cfg.min_delivery@),
        r.fast == (mode is Bulk || stats::within_cap(
            r.latency.p95 as nat,
            cfg.max_p95_ms as nat,
        )),
        r.rate_kept == (mode is Bulk && binary64::Value::of(0).less(cfg.min_bulk_rate@)
            ==> !r.bulk_rate@.less(cfg.min_bulk_rate@)),
{
    let delivery: Binary64 = stats::delivery(state.probe.acked, state.sent);
    let rate: Binary64 = bulk_rate(state.received, elapsed);
    let disconnects: u64 = state.disconnects;
    let latency: Percentiles = stats::percentiles(state.probe.rtt_ns);
    let bulk: bool = mode == Mode::Bulk;
    let floor: bool = bulk && Binary64::of(0).less(cfg.min_bulk_rate);
    Verdict {
        delivery,
        latency,
        bulk_rate: rate,
        undisturbed: disconnects == 0,
        delivered: !delivery.less(cfg.min_delivery),
        fast: bulk || stats::keeps_cap(latency.p95, cfg.max_p95_ms),
        rate_kept: !floor || !rate.less(cfg.min_bulk_rate),
    }
}

/// A latency run that keeps its connection and its time sends until every ping
/// was tried.
pub proof fn law_undisturbed_latency_run_tries_every_ping(run: Run, cfg: Config, now: u128)
    requires
        run.mode is Latency,
        time::between(run.started as nat, now as nat) <= cfg.run_timeout.nanos,
    ensures
        sending_over(run, &cfg, true, now) <==> run.tried >= cfg.count,
{
}

/// No run goes on past its timeout: whatever its mode, it then sends no more
/// and has waited enough.
pub proof fn law_no_run_outlasts_its_timeout(
    run: Run,
    cfg: Config,
    state: State,
    since: u128,
    now: u128,
    connected: bool,
)
    requires
        time::between(run.started as nat, now as nat) > cfg.run_timeout.nanos,
    ensures
        sending_over(run, &cfg, connected, now),
        drained(run, &cfg, &state, since, now),
{
}

/// A latency run sends as long as there are pings left, it has its time and it
/// is connected.
pub proof fn law_latency_runs_send_while_connected(run: Run, cfg: Config, connected: bool, now: u128)
    requires
        run.mode is Latency,
        run.started <= now,
    ensures
        !sending_over(run, &cfg, connected, now) <==> run.tried < cfg.count && now - run.started
            <= cfg.run_timeout.nanos && connected,
{
}

/// A bulk run sends as long as there are messages left and it has its time,
/// connected or not.
pub proof fn law_bulk_runs_send_their_messages(run: Run, cfg: Config, connected: bool, now: u128)
    requires
        run.mode is Bulk,
        run.started <= now,
    ensures
        !sending_over(run, &cfg, connected, now) <==> run.tried < cfg.bulk_count && now - run.started
            <= cfg.run_timeout.nanos,
{
}

/// A soak goes on for its time, within that of any run, whatever it has sent
/// and connected or not.
pub proof fn law_soaks_last_their_time(run: Run, cfg: Config, connected: bool, now: u128)
    requires
        run.mode is Soak,
        run.started <= now,
    ensures
        !sending_over(run, &cfg, connected, now) <==> now - run.started < cfg.soak.nanos && now
            - run.started < cfg.run_timeout.nanos,
{
}

/// A run waits for its messages until all are back, for no more than five
/// seconds, or a minute for bulk data, and within the time of any run.
pub proof fn law_drain_waits_for_the_last_message(
    run: Run,
    cfg: Config,
    state: State,
    since: u128,
    now: u128,
)
    requires
        run.started <= now,
        since <= now,
    ensures
        !drained(run, &cfg, &state, since, now) <==> state.probe.acked < state.sent && now - since
            < (if run.mode is Bulk {
            60_000_000_000int
        } else {
            5_000_000_000
        }) && now - run.started <= cfg.run_timeout.nanos,
{
}

/// The names of the modes.
pub proof fn law_modes_are_named(text: Seq<char>)
    ensures
        mode_named("latency"@) == Some(Mode::Latency),
        mode_named("bulk"@) == Some(Mode::Bulk),
        mode_named("soak"@) == Some(Mode::Soak),
        mode_named(text) is Some ==> text == "latency"@ || text == "bulk"@ || text == "soak"@,
{
    reveal_strlit("latency");
    reveal_strlit("bulk");
    reveal_strlit("soak");
    assert("bulk"@[0] != "soak"@[0]);
    assert("latency"@.len() == 7 && "bulk"@.len() == 4 && "soak"@.len() == 4);
}

/// In whole seconds the rate of bulk data is the bytes per second in mebibytes,
/// to within a byte per second.
pub proof fn law_bulk_rate_is_mebibytes_per_second(received: nat, elapsed: Duration, secs: nat)
    requires
        elapsed.nanos == secs * time::NANOS_PER_SEC,
        0 < secs <= rounding::SIGNIFICAND_LIMIT,
        received < rounding::SIGNIFICAND_LIMIT,
    ensures
        bulk_rate_value(received, elapsed) matches binary64::Value::Finite { negative, magnitude }
            && !negative && (received / secs) * pow2(1054) <= magnitude <= (received / secs + 1)
            * pow2(1054),
{
    let u = binary64::unit();
    let fine = pow2(1054);
    let per = received / secs;
    time::law_whole_seconds_are_exact(elapsed, secs);
    binary64::lemma_of_exact(secs);
    binary64::lemma_of_exact(1024);
    binary64::lemma_of_exact(received);
    binary64::lemma_of_exact(1);
    lemma_pow2_pos(1074);
    lemma_pow2_pos(1064);
    lemma_pow2_pos(1054);
    lemma_pow2_adds(10, 1064);
    lemma_pow2_adds(10, 1054);
    lemma2_to64();
    lemma2_to64_rest();
    let mid = pow2(1064);
    assert(u == 1024 * mid && mid == 1024 * fine);
    // The larger span is that of the run.
    binary64::lemma_ratio_finite(1, 1000);
    assert((1 * u) as nat <= (secs * pow2(1074)) * 1000) by (nonlinear_arith)
        requires
            secs >= 1,
            u == pow2(1074),
    ;
    rounding::lemma_round_at_most((1 * u) as nat, 1000, secs, 1074);
    assert(elapsed.secs_value().larger(binary64::Value::ratio(1, 1000)) == binary64::Value::of(secs));
    // The bytes in mebibytes are exact.
    assert(1024 * u > 0) by (nonlinear_arith)
        requires
            u > 0,
    ;
    assert(((received * u) * u) * 1 == (received * mid) * (1024 * u)) by (nonlinear_arith)
        requires
            u == 1024 * mid,
    ;
    rounding::lemma_round_same_value((received * u) * u, 1024 * u, received * mid, 1);
    rounding::lemma_representable(received, 1064);
    assert(((received * mid) * u) * 1 == (received * fine) * (1024 * u)) by (nonlinear_arith)
        requires
            mid == 1024 * fine,
    ;
    rounding::lemma_round_same_value((received * mid) * u, 1024 * u, received * fine, 1);
    rounding::lemma_representable(received, 1054);
    lemma_pow2_adds(53, 1064);
    lemma_pow2_adds(53, 1054);
    lemma_pow2_strictly_increases(1117, 2098);
    lemma_pow2_strictly_increases(1107, 2098);
    assert(received * mid <= 0x20_0000_0000_0000 * mid && received * fine <= 0x20_0000_0000_0000
        * fine) by (nonlinear_arith)
        requires
            received <= 0x20_0000_0000_0000,
    ;
    // The quotient.
    let num = (received * fine) * u;
    let den = secs * u;
    assert(den > 0) by (nonlinear_arith)
        requires
            den == secs * u,
            secs > 0,
            u > 0,
    ;
    vstd::arithmetic::div_mod::lemma_fundamental_div_mod(received as int, secs as int);
    assert((per * fine) * den <= num && num <= ((per + 1) * fine) * den) by (nonlinear_arith)
        requires
            secs * per <= received,
            received <= secs * per + secs,
            num == (received * fine) * u,
            den == secs * u,
    {
        assert((per * fine) * den == (secs * per) * (fine * u));
        assert(((per + 1) * fine) * den == (secs * per + secs) * (fine * u));
        assert(num == received * (fine * u));
        assert(fine * u >= 0);
    }
    vstd::arithmetic::div_mod::lemma_div_is_ordered_by_denominator(received as int, 1, secs as int);
    rounding::lemma_round_at_least(num, den, per, 1054);
    rounding::lemma_round_at_most(num, den, per + 1, 1054);
    assert((per + 1) * fine <= 0x20_0000_0000_0000 * fine) by (nonlinear_arith)
        requires
            per + 1 <= 0x20_0000_0000_0000,
    ;
}

/// A run passes exactly where every part of its verdict holds.
pub proof fn law_pass_needs_every_part(v: Verdict)
    ensures
        v.is_pass() <==> v.undisturbed && v.delivered && v.fast && v.rate_kept,
{
}

/// The rate of bulk data times the time gives back the bytes, in mebibytes, to
/// within a few millionths, for any time from a millisecond up. Shorter times
/// count as a millisecond.
pub proof fn law_bulk_rate_times_time_is_the_data(received: nat, elapsed: Duration)
    requires
        elapsed.nanos < 0x80_0000 * time::NANOS_PER_SEC,
        0 < received <= rounding::SIGNIFICAND_LIMIT,
    ensures
        bulk_rate_value(received, elapsed) matches binary64::Value::Finite { negative, magnitude }
            && !negative && {
            let exact = (received * binary64::unit()) * time::NANOS_PER_SEC;
            let nanos = if elapsed.nanos > 1_000_000 {
                elapsed.nanos as int
            } else {
                1_000_000
            };
            &&& 999_998 * exact <= 1_000_000 * ((magnitude * 1_048_576) * nanos)
            &&& 1_000_000 * ((magnitude * 1_048_576) * nanos) <= 1_000_002 * exact
        },
{
    let u = binary64::unit();
    let fine = pow2(1054);
    let milli = Duration { nanos: 1_000_000 };
    let long = if elapsed.nanos > 1_000_000 {
        elapsed
    } else {
        milli
    };
    lemma_larger_span(elapsed);
    binary64::lemma_of_exact(1024);
    binary64::lemma_of_exact(received);
    lemma_pow2_pos(1074);
    lemma_pow2_pos(1064);
    lemma_pow2_pos(1054);
    lemma_pow2_adds(10, 1064);
    lemma_pow2_adds(10, 1054);
    lemma2_to64();
    lemma2_to64_rest();
    let mid = pow2(1064);
    assert(u == 1024 * mid && mid == 1024 * fine);
    assert(1024 * u > 0) by (nonlinear_arith)
        requires
            u > 0,
    ;
    assert(((received * u) * u) * 1 == (received * mid) * (1024 * u)) by (nonlinear_arith)
        requires
            u == 1024 * mid,
    ;
    rounding::lemma_round_same_value((received * u) * u, 1024 * u, received * mid, 1);
    rounding::lemma_representable(received, 1064);
    assert(((received * mid) * u) * 1 == (received * fine) * (1024 * u)) by (nonlinear_arith)
        requires
            mid == 1024 * fine,
    ;
    rounding::lemma_round_same_value((received * mid) * u, 1024 * u, received * fine, 1);
    rounding::lemma_representable(received, 1054);
    lemma_pow2_adds(53, 1064);
    lemma_pow2_adds(53, 1054);
    lemma_pow2_strictly_increases(1117, 2098);
    lemma_pow2_strictly_increases(1107, 2098);
    assert(received * mid <= 0x20_0000_0000_0000 * mid && received * fine <= 0x20_0000_0000_0000
        * fine) by (nonlinear_arith)
        requires
            received <= 0x20_0000_0000_0000,
    ;
    let x = received * fine;
    assert(fine <= x <= rounding::SIGNIFICAND_LIMIT * u) by (nonlinear_arith)
        requires
            x == received * fine,
            1 <= received <= rounding::SIGNIFICAND_LIMIT,
            u == 1024 * (1024 * fine),
    ;
    lemma_pow2_strictly_increases(1040, 1054);
    time::lemma_over_seconds_closely(x, long);
    let r = bulk_rate_value(received, elapsed)->Finite_magnitude;
    let nanos = long.nanos as nat;
    let billion = time::NANOS_PER_SEC as nat;
    assert((received * u) * billion == 1_048_576 * (x * billion)) by (nonlinear_arith)
        requires
            x == received * fine,
            u == 1024 * (1024 * fine),
    ;
    assert((r * 1_048_576) * nanos == 1_048_576 * (r * nanos)) by (nonlinear_arith);
}

/// A span below a millisecond counts as one.
proof fn lemma_larger_span(elapsed: Duration)
    requires
        elapsed.nanos < 0x80_0000 * time::NANOS_PER_SEC,
    ensures
        elapsed.secs_value().larger(binary64::Value::ratio(1, 1000)) == (if elapsed.nanos
            > 1_000_000 {
            elapsed
        } else {
            Duration { nanos: 1_000_000 }
        }).secs_value(),
{
    let u = binary64::unit();
    let milli = Duration { nanos: 1_000_000 };
    let billion = time::NANOS_PER_SEC as nat;
    time::lemma_secs_finite(elapsed);
    time::lemma_secs_finite(milli);
    binary64::lemma_ratio_finite(1, 1000);
    binary64::law_quotient_is_nearest(1_000_000, billion);
    binary64::lemma_ratio_finite(1_000_000, billion);
    binary64::lemma_of_exact(0);
    lemma_pow2_pos(1074);
    assert((1_000_000 * u) * 1000 == (1 * u) * billion) by (nonlinear_arith)
        requires
            billion == 1_000_000_000,
    ;
    rounding::lemma_round_same_value(1_000_000 * u, billion, (1 * u) as nat, 1000);
    let m = rounding::round_quotient((1 * u) as nat, 1000);
    rounding::lemma_rounded_quotient_stays((1 * u) as nat, 1000);
    rounding::lemma_representable(0, 0);
    assert(0 * pow2(0) == 0);
    assert(milli.nanos / time::NANOS_PER_SEC == 0 && milli.nanos % time::NANOS_PER_SEC
        == 1_000_000);
    assert(milli.secs_value() == binary64::Value::ratio(1, 1000));
    if elapsed.nanos > 1_000_000 {
        time::law_longer_spans_are_no_fewer_seconds(milli, elapsed);
    } else {
        time::law_longer_spans_are_no_fewer_seconds(elapsed, milli);
    }
}

/// Settings are in range exactly where messages and frames can be held in
/// memory.
pub proof fn law_messages_fit_in_memory(cfg: Config)
    ensures
        cfg.in_range() <==> cfg.payload <= isize::MAX && cfg.bulk_size_mib * 1_048_576 <= isize::MAX
            && cfg.max_frame_mib * 1_048_576 <= usize::MAX,
{
}

/// A run of pings passes exactly where the session stayed open, the answers are
/// a large enough share of the messages, and the 95th percentile of the round
/// trips keeps the cap.
pub proof fn law_verdict_on_pings(
    cfg: Config,
    mode: Mode,
    state: State,
    elapsed: Duration,
    sorted: Seq<u128>,
    v: Verdict,
)
    requires
        call_ensures(judge, (&cfg, mode, state, elapsed), v),
        !(mode is Bulk),
        0 < state.sent <= rounding::SIGNIFICAND_LIMIT,
        state.probe.acked <= rounding::SIGNIFICAND_LIMIT,
        0 < sorted.len() <= 0x2000_0000_0000,
        forall|i: int, j: int| 0 <= i <= j < sorted.len() ==> sorted[i] <= sorted[j],
        sorted.to_multiset() == state.probe.rtt_ns@.to_multiset(),
        cfg.max_p95_ms <= u32::MAX,
    ensures
        v.is_pass() <==> state.disconnects == 0 && !binary64::Value::ratio(
            state.probe.acked as nat,
            state.sent as nat,
        ).less(cfg.min_delivery@) && (cfg.max_p95_ms == 0 || sorted[((sorted.len() - 1) * 95 + 50)
            / 100] <= cfg.max_p95_ms * 1_000_000),
{
    state.probe.rtt_ns@.to_multiset_ensures();
    sorted.to_multiset_ensures();
    stats::law_percentiles_are_the_samples_at_their_rank(state.probe.rtt_ns@, sorted, v.latency);
    stats::law_cap_is_exact(v.latency.p95, cfg.max_p95_ms);
    stats::law_delivery_is_answered_over_sent(state.probe.acked as nat, state.sent as nat);
}

/// A run of bulk data passes exactly where the session stayed open, enough
/// messages came back, and the data moved fast enough where there is a floor.
pub proof fn law_verdict_on_bulk_data(
    cfg: Config,
    state: State,
    elapsed: Duration,
    v: Verdict,
)
    requires
        call_ensures(judge, (&cfg, Mode::Bulk, state, elapsed), v),
        0 < state.sent <= rounding::SIGNIFICAND_LIMIT,
        state.probe.acked <= rounding::SIGNIFICAND_LIMIT,
    ensures
        v.is_pass() <==> state.disconnects == 0 && !binary64::Value::ratio(
            state.probe.acked as nat,
            state.sent as nat,
        ).less(cfg.min_delivery@) && (!binary64::Value::of(0).less(cfg.min_bulk_rate@)
            || !bulk_rate_value(state.received as nat, elapsed).less(cfg.min_bulk_rate@)),
        v.bulk_rate@ == bulk_rate_value(state.received as nat, elapsed),
{
    stats::law_delivery_is_answered_over_sent(state.probe.acked as nat, state.sent as nat);
}

/// The driver pauses for the period of the pings behind each of them, not at all
/// behind bulk data, and shortly while it waits for the last messages.
pub proof fn law_pauses_follow_the_mode(run: Run, cfg: Config, action: Action, r: Duration)
    requires
        call_ensures(Run::pause, (&run, &cfg, action), r),
    ensures
        action is Finish ==> r.nanos == 0,
        action is Drain && run.mode is Bulk ==> r.nanos == 100_000_000,
        action is Drain && !(run.mode is Bulk) ==> r.nanos == 50_000_000,
        (action is Send || action is Skip) && run.mode is Latency ==> r == cfg.period,
        (action is Send || action is Skip) && run.mode is Bulk ==> r.nanos == 0,
        (action is Send || action is Skip) && run.mode is Soak ==> r == cfg.soak_period,
{
}

/// A session that closes counts, unless the client shuts down; either way the
/// client is no longer connected.
pub proof fn law_closed_sessions_count_before_the_shutdown(state: &mut State)
    requires
        call_ensures(State::on_session_close, (state,), ()),
        state.disconnects < u64::MAX,
    ensures
        !final(state).connected,
        old(state).shutting_down ==> final(state).disconnects == old(state).disconnects,
        !old(state).shutting_down ==> final(state).disconnects == old(state).disconnects + 1,
{
}

/// A message that comes back counts, with its bytes.
pub proof fn law_messages_back_are_counted(state: &mut State, data: Bytes, now: Option<u128>)
    requires
        call_ensures(State::on_message, (state, &data, now), ()),
        state.probe.acked < usize::MAX,
        state.received + wire::contents(data).len() <= usize::MAX,
    ensures
        final(state).probe.acked == old(state).probe.acked + 1,
        final(state).received == old(state).received + wire::contents(data).len(),
        final(state).sent == old(state).sent && final(state).disconnects == old(state).disconnects,
{
}

/// A run that is not over sends: pings of their size, bulk messages of theirs,
/// and in a soak nothing while there is no connection. One that is over waits
/// for its messages and then ends.
pub proof fn law_runs_send_then_wait_then_end(
    run: &mut Run,
    cfg: Config,
    state: State,
    now: u128,
    action: Action,
)
    requires
        call_ensures(Run::next, (run, &cfg, &state, now), action),
        run.draining is None,
        cfg.in_range(),
        run.tried < usize::MAX,
    ensures
        !sending_over(*old(run), &cfg, state.connected, now) ==> {
            &&& final(run).draining is None
            &&& old(run).mode is Latency ==> action == (Action::Send { size: cfg.payload })
                && final(run).tried == old(run).tried + 1
            &&& old(run).mode is Bulk ==> action == (Action::Send {
                size: (cfg.bulk_size_mib * 1_048_576) as usize,
            }) && final(run).tried == old(run).tried + 1
            &&& old(run).mode is Soak && state.connected ==> action == (Action::Send {
                size: cfg.payload,
            })
            &&& old(run).mode is Soak && !state.connected ==> action == Action::Skip
        },
        sending_over(*old(run), &cfg, state.connected, now) ==> {
            &&& final(run).draining == Some(now)
            &&& state.probe.acked >= state.sent ==> action == Action::Finish
            &&& action == Action::Finish || action == Action::Drain
        },
{
}

} // verus!
