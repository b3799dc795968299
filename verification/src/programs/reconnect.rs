//! Reconnecting to a server that goes away and comes back on the same port:
//! after every restart the client has to be back within a budget.

use bytes::Bytes;
use vstd::arithmetic::div_mod::*;
use vstd::arithmetic::power2::*;
use vstd::prelude::*;
use vstd::utf8;

use crate::binary64;
use crate::binary64::Binary64;
use crate::env;
use crate::env::Environment;
use crate::rounding;
use crate::stats;
use crate::time;
use crate::time::Duration;
use crate::wire;

verus! {

/// The settings of a run.
#[derive(Clone, Copy, PartialEq, Eq, Structural, Debug)]
pub struct Config {
    /// How often the server goes away and comes back.
    pub cycles: u32,
    /// How long the server is up in a cycle.
    pub up: Duration,
    /// How long the server is down in a cycle.
    pub down: Duration,
    /// The period of the client's messages.
    pub period: Duration,
    /// How long the client may take to be back.
    pub redial_budget: Duration,
}

impl Config {
    /// The settings that an environment asks for.
    pub fn from_env(e: &Environment) -> (r: Config)
        ensures
            r.cycles == env::asked_whole(e, "QA_CYCLES"@, u32::MAX as nat, 3),
            r.up.nanos == env::asked_whole(e, "QA_CYCLE_SECS"@, u64::MAX as nat, 4)
                * time::NANOS_PER_SEC,
            r.down.nanos == env::asked_whole(e, "QA_DOWN_SECS"@, u64::MAX as nat, 2)
                * time::NANOS_PER_SEC,
            r.period.nanos == env::asked_whole(e, "QA_PERIOD_MS"@, u64::MAX as nat, 100)
                * time::NANOS_PER_MILLI,
            r.redial_budget.nanos == env::asked_whole(
                e,
                "QA_REDIAL_BUDGET_MS"@,
                u64::MAX as nat,
                5_000,
            ) * time::NANOS_PER_MILLI,
    {
        let cycles: u32 = env::env_or(e, "QA_CYCLES", 3u32);
        Config {
            cycles,
            up: env::duration_secs(e, "QA_CYCLE_SECS", 4),
            down: env::duration_secs(e, "QA_DOWN_SECS", 2),
            period: env::duration_millis(e, "QA_PERIOD_MS", 100),
            redial_budget: env::duration_millis(e, "QA_REDIAL_BUDGET_MS", 5_000),
        }
    }
}

/// What the client says.
pub const PING: &'static str = "jitter-ping";

/// The message that the client sends over and over.
pub fn ping() -> (r: Bytes)
    ensures
        wire::contents(r) == utf8::encode_utf8(PING@),
{
    wire::text_message(PING)
}

/// How many answers are asked of a client where nothing else is said: three
/// tenths of what it sent.
pub open spec fn default_min_acked(sent: nat) -> nat {
    binary64::Value::of(sent).times(binary64::Value::ratio(30, 100)).truncated(usize::MAX as nat)
}

/// Up to 2^45 messages, three tenths are exactly that, rounded down.
pub proof fn law_default_is_three_tenths(sent: nat)
    requires
        sent < 0x2000_0000_0000,
        sent <= usize::MAX,
    ensures
        default_min_acked(sent) == 3 * sent / 10,
{
    let u = binary64::unit();
    let whole = 0x40_0000_0000_0000nat;
    let significand = 5404319552844595nat;
    let fine = pow2(1020);
    lemma2_to64();
    lemma2_to64_rest();
    lemma_pow2_pos(1074);
    lemma_pow2_pos(1020);
    lemma_pow2_adds(54, 1020);
    assert(u == whole * fine);
    binary64::lemma_of_exact(sent);
    // Three tenths, rounded.
    assert(rounding::round_quotient(30 * u, 100) == significand * fine) by {
        let h = 30 * whole;
        let q = (30 * u) / 100;
        assert(30 * u == h * fine) by (nonlinear_arith)
            requires
                u == whole * fine,
                h == 30 * whole,
        ;
        lemma_fundamental_div_mod((30 * u) as int, 100);
        assert(q < 0x20_0000_0000_0000 * fine && q >= 0x10_0000_0000_0000 * fine)
            by (nonlinear_arith)
            requires
                100 * q <= h * fine,
                100 * q + 99 >= h * fine,
                h == 30 * 0x40_0000_0000_0000,
                fine > 0,
        ;
        rounding::lemma_excess_unique(q, 1020);
        rounding::lemma_nearest_even_scaled(h, 100, fine);
        assert(rounding::nearest_even(h, 100) == significand);
    }
    lemma_pow2_strictly_increases(1074, 2098);
    assert(significand * fine <= u) by (nonlinear_arith)
        requires
            significand <= whole,
            u == whole * fine,
    ;
    // The product with the messages.
    let c = sent * significand;
    assert((sent * u) * (significand * fine) * 1 == (c * fine) * u) by (nonlinear_arith)
        requires
            c == sent * significand,
    ;
    rounding::lemma_round_same_value((sent * u) * (significand * fine), u, c * fine, 1);
    rounding::lemma_round_shifted(c, 1020);
    let y = rounding::round_quotient(c, 1);
    let r = 3 * sent / 10;
    assert(100 * c + 20 * sent == 30 * sent * whole);
    let below = ((r + 1) * 16 - 1) as nat;
    assert(c <= below * 0x4_0000_0000_0000);
    rounding::lemma_round_monotone(c, 1, below * pow2(50), 1);
    rounding::lemma_representable(below, 50);
    assert(y < whole * (r + 1));
    if 3 * sent > 10 * r {
        assert(c >= (4 * r) * 0x10_0000_0000_0000);
        rounding::lemma_round_monotone((4 * r) * pow2(52), 1, c, 1);
        rounding::lemma_representable(4 * r, 52);
    } else {
        stats::lemma_tie_rounds_up(c, 4 * r, sent, significand, 20);
    }
    assert(y >= whole * r);
    lemma_fundamental_div_mod_converse(y as int, whole as int, r as int, y - whole * r);
    rounding::lemma_div_scaled(y, whole, fine);
    let product = y * fine;
    assert(product < pow2(2098)) by {
        lemma_pow2_adds(46, 1074);
        lemma_pow2_strictly_increases(1120, 2098);
        assert(y * fine <= (whole * (r + 1)) * fine) by (nonlinear_arith)
            requires
                y < whole * (r + 1),
        ;
        assert((whole * (r + 1)) * fine == (r + 1) * u) by (nonlinear_arith)
            requires
                u == whole * fine,
        ;
        assert((r + 1) * u <= 0x4000_0000_0000 * u) by (nonlinear_arith)
            requires
                r + 1 <= 0x4000_0000_0000,
        ;
    }
    assert(product / u == r);
    assert(r <= usize::MAX);
}

/// How many answers are asked of a client.
pub fn min_acked(e: &Environment, sent: usize) -> (r: usize)
    ensures
        r == env::asked_whole(
            e,
            "QA_MIN_ACKED"@,
            usize::MAX as nat,
            default_min_acked(sent as nat),
        ),
{
    let share: Binary64 = Binary64::of(sent as u128).times(Binary64::ratio(30, 100));
    let default: usize = share.truncate(usize::MAX as u64) as usize;
    let r: usize = env::env_or(e, "QA_MIN_ACKED", default);
    r
}

/// What happens to the client. Instants are in nanoseconds.
pub ghost enum Event {
    /// The protocol opened.
    Connected { now: u128 },
    /// The protocol or its session closed.
    Disconnected { now: u128 },
    /// The server is about to listen again.
    ServerBack { now: u128 },
    /// A message was sent.
    Sent,
    /// An answer arrived.
    Answered,
    /// The service reported an error.
    Failed,
}

/// The client, in the abstract.
#[verifier::ext_equal]
pub ghost struct Watch {
    pub connected: bool,
    pub connected_at: Option<u128>,
    pub disconnected_at: Option<u128>,
    /// When the server came back, as long as the client is not back.
    pub back_at: Option<u128>,
    pub sent: usize,
    pub acked: usize,
    pub errors: u64,
    /// From each disconnect to the next connect, in milliseconds.
    pub intervals_ms: Seq<u128>,
    /// From each comeback of the server to that of the client, in
    /// nanoseconds.
    pub comebacks_ns: Seq<u128>,
}

/// Milliseconds between two instants.
pub open spec fn millis_between(start: u128, now: u128) -> u128 {
    (time::between(start as nat, now as nat) / (time::NANOS_PER_MILLI as nat)) as u128
}

impl Watch {
    pub open spec fn after(self, event: Event) -> Watch {
        match event {
            Event::Connected { now } => Watch {
                connected: true,
                connected_at: Some(now),
                disconnected_at: None,
                back_at: None,
                intervals_ms: match self.disconnected_at {
                    Some(at) => self.intervals_ms.push(millis_between(at, now)),
                    None => self.intervals_ms,
                },
                comebacks_ns: match self.back_at {
                    Some(at) => self.comebacks_ns.push(time::between(at as nat, now as nat) as u128),
                    None => self.comebacks_ns,
                },
                ..self
            },
            Event::Disconnected { now } => Watch {
                connected: false,
                disconnected_at: Some(now),
                ..self
            },
            Event::ServerBack { now } => Watch { back_at: Some(now), ..self },
            Event::Sent => Watch { sent: self.sent.wrapping_add(1), ..self },
            Event::Answered => Watch { acked: self.acked.wrapping_add(1), ..self },
            Event::Failed => Watch { errors: self.errors.wrapping_add(1), ..self },
        }
    }

    /// A client that nothing has happened to.
    pub open spec fn fresh() -> Watch {
        Watch {
            connected: false,
            connected_at: None,
            disconnected_at: None,
            back_at: None,
            sent: 0,
            acked: 0,
            errors: 0,
            intervals_ms: Seq::empty(),
            comebacks_ns: Seq::empty(),
        }
    }
}

/// The client.
pub struct Client {
    pub connected: bool,
    pub connected_at: Option<u128>,
    pub disconnected_at: Option<u128>,
    pub back_at: Option<u128>,
    pub sent: usize,
    pub acked: usize,
    pub errors: u64,
    pub intervals_ms: Vec<u128>,
    pub comebacks_ns: Vec<u128>,
}

impl View for Client {
    type V = Watch;

    open spec fn view(&self) -> Watch {
        Watch {
            connected: self.connected,
            connected_at: self.connected_at,
            disconnected_at: self.disconnected_at,
            back_at: self.back_at,
            sent: self.sent,
            acked: self.acked,
            errors: self.errors,
            intervals_ms: self.intervals_ms@,
            comebacks_ns: self.comebacks_ns@,
        }
    }
}

impl Client {
    pub fn new() -> (r: Client)
        ensures
            r@ == Watch::fresh(),
    {
        Client {
            connected: false,
            connected_at: None,
            disconnected_at: None,
            back_at: None,
            sent: 0,
            acked: 0,
            errors: 0,
            intervals_ms: Vec::new(),
            comebacks_ns: Vec::new(),
        }
    }

    /// The protocol opened.
    pub fn on_connected(&mut self, now: u128)
        ensures
            final(self)@ == old(self)@.after(Event::Connected { now }),
    {
        self.connected = true;
        if let Some(at) = self.disconnected_at {
            self.intervals_ms.push(time::elapsed(at, now).as_millis());
        }
        if let Some(at) = self.back_at {
            self.comebacks_ns.push(time::elapsed(at, now).nanos);
        }
        self.connected_at = Some(now);
        self.disconnected_at = None;
        self.back_at = None;
    }

    /// The protocol or its session closed.
    pub fn on_disconnected(&mut self, now: u128)
        ensures
            final(self)@ == old(self)@.after(Event::Disconnected { now }),
    {
        self.connected = false;
        self.disconnected_at = Some(now);
    }

    /// The server is about to listen again.
    pub fn on_server_back(&mut self, now: u128)
        ensures
            final(self)@ == old(self)@.after(Event::ServerBack { now }),
    {
        self.back_at = Some(now);
    }

    /// A message was sent.
    pub fn on_sent(&mut self)
        ensures
            final(self)@ == old(self)@.after(Event::Sent),
    {
        self.sent = self.sent.wrapping_add(1);
    }

    /// An answer arrived.
    pub fn on_answer(&mut self)
        ensures
            final(self)@ == old(self)@.after(Event::Answered),
    {
        self.acked = self.acked.wrapping_add(1);
    }

    /// The service reported an error.
    pub fn on_error(&mut self)
        ensures
            final(self)@ == old(self)@.after(Event::Failed),
    {
        self.errors = self.errors.wrapping_add(1);
    }
}

/// What the driver does next.
#[derive(Clone, Copy, PartialEq, Eq, Structural, Debug)]
pub enum Step {
    /// Let the server run.
    Up { cycle: u32 },
    /// Shut the server down.
    TearDown { cycle: u32 },
    /// Leave the server down.
    Down { cycle: u32 },
    /// Start the server on its port again.
    Respawn { cycle: u32 },
    /// Let the server run once more, so that the client can be back.
    Tail,
    /// Stop sending and dialing, and let the last answers arrive.
    Settle,
    /// Judge the run.
    Judge,
}

/// The first step of a run.
pub open spec fn first_of(cycles: u32) -> Step {
    if cycles > 0 {
        Step::Up { cycle: 0 }
    } else {
        Step::Tail
    }
}

/// The step behind a step.
pub open spec fn next_of(step: Step, cycles: u32) -> Step {
    match step {
        Step::Up { cycle } => Step::TearDown { cycle },
        Step::TearDown { cycle } => Step::Down { cycle },
        Step::Down { cycle } => Step::Respawn { cycle },
        Step::Respawn { cycle } => if cycle + 1 < cycles {
            Step::Up { cycle: (cycle + 1) as u32 }
        } else {
            Step::Tail
        },
        Step::Tail => Step::Settle,
        Step::Settle => Step::Judge,
        Step::Judge => Step::Judge,
    }
}

/// The first step of a run.
pub fn first_step(cycles: u32) -> (r: Step)
    ensures
        r == first_of(cycles),
{
    if cycles > 0 {
        Step::Up { cycle: 0 }
    } else {
        Step::Tail
    }
}

/// The step behind a step.
pub fn next_step(step: Step, cycles: u32) -> (r: Step)
    ensures
        r == next_of(step, cycles),
{
    match step {
        Step::Up { cycle } => Step::TearDown { cycle },
        Step::TearDown { cycle } => Step::Down { cycle },
        Step::Down { cycle } => Step::Respawn { cycle },
        Step::Respawn { cycle } => if cycles > 0 && cycle < cycles - 1 {
            Step::Up { cycle: cycle + 1 }
        } else {
            Step::Tail
        },
        Step::Tail => Step::Settle,
        Step::Settle => Step::Judge,
        Step::Judge => Step::Judge,
    }
}

/// Whether the client was back after every restart, each time within the
/// budget.
pub open spec fn always_back(comebacks_ns: Seq<u128>, cycles: nat, budget: Duration) -> bool {
    &&& comebacks_ns.len() >= cycles
    &&& forall|i: int| 0 <= i < comebacks_ns.len() ==> #[trigger] comebacks_ns[i] <= budget.nanos
}

/// The outcome of a run.
#[derive(Clone, Copy, PartialEq, Eq, Structural, Debug)]
pub struct Verdict {
    /// Whether there was a comeback of the client for every restart.
    pub all_back: bool,
    /// Whether every comeback kept the budget.
    pub in_budget: bool,
    /// Whether enough messages were answered.
    pub enough_acked: bool,
}

impl Verdict {
    pub open spec fn is_pass(self) -> bool {
        self.all_back && self.in_budget && self.enough_acked
    }

    /// Whether the run passed.
    pub fn passed(self) -> (r: bool)
        ensures
            r == self.is_pass(),
    {
        self.all_back && self.in_budget && self.enough_acked
    }
}

/// Judges a run.
pub fn judge(cfg: &Config, client: &Client, min_acked: usize) -> (r: Verdict)
    ensures
        r.all_back == (client@.comebacks_ns.len() >= cfg.cycles),
        r.in_budget == forall|i: int|
            0 <= i < client@.comebacks_ns.len() ==> #[trigger] client@.comebacks_ns[i]
                <= cfg.redial_budget.nanos,
        r.enough_acked == (client@.acked >= min_acked),
        r.is_pass() <==> always_back(
            client@.comebacks_ns,
            cfg.cycles as nat,
            cfg.redial_budget,
        ) && client@.acked >= min_acked,
{
    let budget: u128 = cfg.redial_budget.nanos;
    let n: usize = client.comebacks_ns.len();
    let mut in_budget: bool = true;
    let mut i: usize = 0;
    while i < n
        invariant
            i <= n,
            n == client.comebacks_ns@.len(),
            in_budget == forall|k: int|
                0 <= k < i ==> #[trigger] client.comebacks_ns@[k] <= budget,
        decreases n - i,
    {
        if client.comebacks_ns[i] > budget {
            in_budget = false;
        }
        i = i + 1;
    }
    Verdict {
        all_back: n as u64 >= cfg.cycles as u64,
        in_budget,
        enough_acked: client.acked >= min_acked,
    }
}

/// The client behind a row of events.
pub open spec fn outcome(events: Seq<Event>) -> Watch
    decreases events.len(),
{
    if events.len() == 0 {
        Watch::fresh()
    } else {
        outcome(events.drop_last()).after(events.last())
    }
}

/// How often the server came back in a row of events.
pub open spec fn restarts(events: Seq<Event>) -> nat
    decreases events.len(),
{
    if events.len() == 0 {
        0
    } else {
        restarts(events.drop_last()) + if events.last() is ServerBack {
            1nat
        } else {
            0nat
        }
    }
}

/// A restart of the server counts for at most one comeback of the client, and
/// for none as long as the client is not back: as many comebacks as restarts
/// mean that the client was back after each of them.
pub proof fn law_one_comeback_per_restart(events: Seq<Event>)
    ensures
        outcome(events).comebacks_ns.len() <= restarts(events),
        outcome(events).back_at is Some ==> outcome(events).comebacks_ns.len() < restarts(events),
    decreases events.len(),
{
    if events.len() > 0 {
        law_one_comeback_per_restart(events.drop_last());
    }
}

/// Two restarts without a connect between them leave a run with fewer
/// comebacks than restarts, whatever happens later.
pub proof fn law_missed_comeback_is_not_made_up(events: Seq<Event>, later: Seq<Event>)
    requires
        outcome(events).back_at is Some,
        later.len() > 0,
        later[0] is ServerBack,
    ensures
        outcome(events + later).comebacks_ns.len() < restarts(events + later),
        outcome(events + later).back_at is Some ==> outcome(events + later).comebacks_ns.len() + 1
            < restarts(events + later),
    decreases later.len(),
{
    let all = events + later;
    assert(all.drop_last() =~= events + later.drop_last());
    assert(all.last() == later.last());
    if later.len() == 1 {
        assert(later.drop_last() =~= Seq::empty());
        assert(events + Seq::<Event>::empty() =~= events);
        law_one_comeback_per_restart(events);
    } else {
        law_missed_comeback_is_not_made_up(events, later.drop_last());
    }
}

/// Every run restarts the server once in every cycle: from the first step on,
/// four steps per cycle lead to the next cycle, and then to the end.
pub proof fn law_plan_restarts_every_cycle(cycles: u32, cycle: u32)
    requires
        cycle < cycles,
    ensures
        ({
            let up = Step::Up { cycle };
            let down = next_of(next_of(up, cycles), cycles);
            let respawn = next_of(down, cycles);
            &&& respawn == (Step::Respawn { cycle })
            &&& next_of(respawn, cycles) == (if cycle + 1 < cycles {
                Step::Up { cycle: (cycle + 1) as u32 }
            } else {
                Step::Tail
            })
        }),
        first_of(cycles) == (Step::Up { cycle: 0 }),
{
}

/// The comeback of a client is timed from the last restart of the server before
/// it to the connect, whatever else happened to the client; a connect without a
/// restart before it is none.
pub proof fn law_comeback_is_timed_from_the_restart(w: Watch, restart: u128, closed: u128, now: u128)
    requires
        restart <= now,
    ensures
        ({
            let back = w.after(Event::ServerBack { now: restart });
            let taken = (now - restart) as u128;
            let counted = w.comebacks_ns.push(taken);
            &&& back.after(Event::Connected { now }).comebacks_ns == counted
            &&& back.after(Event::Disconnected { now: closed }).after(
                Event::Connected { now },
            ).comebacks_ns == counted
            &&& back.after(Event::Sent).after(Event::Answered).after(Event::Failed).after(
                Event::Connected { now },
            ).comebacks_ns == counted
            &&& back.after(Event::Connected { now }).after(
                Event::Connected { now: closed },
            ).comebacks_ns == counted
        }),
        w.back_at is None ==> w.after(Event::Connected { now }).comebacks_ns == w.comebacks_ns,
{
}

/// An interval is timed from a disconnect to the next connect, in whole
/// milliseconds.
pub proof fn law_interval_is_timed_from_the_disconnect(w: Watch, closed: u128, now: u128)
    requires
        closed <= now,
    ensures
        ({
            let after = w.after(Event::Disconnected { now: closed }).after(Event::Connected { now });
            &&& after.intervals_ms.len() == w.intervals_ms.len() + 1
            &&& after.intervals_ms.last() * time::NANOS_PER_MILLI <= now - closed
            &&& now - closed < (after.intervals_ms.last() + 1) * time::NANOS_PER_MILLI
            &&& after.connected
            &&& !w.after(Event::Disconnected { now: closed }).connected
        }),
{
    let span = (now - closed) as nat;
    lemma_fundamental_div_mod(span as int, time::NANOS_PER_MILLI as int);
    assert(span / (time::NANOS_PER_MILLI as nat) <= span) by {
        lemma_div_is_ordered_by_denominator(span as int, 1, time::NANOS_PER_MILLI as int);
    }
}

/// Messages, answers and errors are counted one by one, and change nothing
/// else.
pub proof fn law_events_are_counted(w: Watch)
    requires
        w.sent < usize::MAX,
        w.acked < usize::MAX,
        w.errors < u64::MAX,
    ensures
        w.after(Event::Sent) == (Watch { sent: (w.sent + 1) as usize, ..w }),
        w.after(Event::Answered) == (Watch { acked: (w.acked + 1) as usize, ..w }),
        w.after(Event::Failed) == (Watch { errors: (w.errors + 1) as u64, ..w }),
{
}

/// The client was always back exactly where there is a comeback for every cycle
/// and none took longer than the budget.
pub proof fn law_one_late_comeback_is_too_many(comebacks_ns: Seq<u128>, cycles: nat, budget: Duration)
    ensures
        always_back(comebacks_ns, cycles, budget) <==> comebacks_ns.len() >= cycles && forall|i: int|
            0 <= i < comebacks_ns.len() ==> #[trigger] comebacks_ns[i] <= budget.nanos,
{
}

/// A run passes exactly where every part of its verdict holds.
pub proof fn law_pass_needs_every_part(v: Verdict)
    ensures
        v.is_pass() <==> v.all_back && v.in_budget && v.enough_acked,
{
}

/// Behind the last cycle the server runs once more, the last answers arrive, and
/// the run is judged.
pub proof fn law_plan_ends_with_the_verdict(cycles: u32)
    ensures
        first_of(0) == Step::Tail,
        next_of(Step::Tail, cycles) == Step::Settle,
        next_of(Step::Settle, cycles) == Step::Judge,
        next_of(Step::Judge, cycles) == Step::Judge,
{
}

/// The abstract client shows each field of the client, and a new one has seen
/// nothing.
pub proof fn law_client_shows_its_fields(c: Client)
    ensures
        c@.connected == c.connected,
        c@.connected_at == c.connected_at,
        c@.disconnected_at == c.disconnected_at,
        c@.back_at == c.back_at,
        c@.sent == c.sent && c@.acked == c.acked && c@.errors == c.errors,
        c@.intervals_ms == c.intervals_ms@,
        c@.comebacks_ns == c.comebacks_ns@,
        Watch::fresh().comebacks_ns.len() == 0 && Watch::fresh().intervals_ms.len() == 0,
        !Watch::fresh().connected && Watch::fresh().back_at is None && Watch::fresh().disconnected_at
            is None && Watch::fresh().connected_at is None,
        Watch::fresh().sent == 0 && Watch::fresh().acked == 0 && Watch::fresh().errors == 0,
{
}

/// A run passes exactly where there is a comeback for every cycle, none took
/// longer than the budget, and enough messages were answered.
pub proof fn law_verdict_weighs_comebacks_and_answers(
    cfg: Config,
    client: Client,
    min_acked: usize,
    v: Verdict,
)
    requires
        call_ensures(judge, (&cfg, &client, min_acked), v),
    ensures
        v.is_pass() <==> client.comebacks_ns@.len() >= cfg.cycles && client.acked >= min_acked && (
        forall|i: int|
            0 <= i < client.comebacks_ns@.len() ==> #[trigger] client.comebacks_ns@[i]
                <= cfg.redial_budget.nanos),
{
}

/// A client that connects behind a restart of the server adds the time since
/// the restart, to the nanosecond, and is connected.
pub proof fn law_connects_add_the_time_since_the_restart(client: &mut Client, now: u128)
    requires
        call_ensures(Client::on_connected, (client, now), ()),
        client.back_at matches Some(at) ==> at <= now,
    ensures
        final(client).connected,
        final(client).back_at is None && final(client).disconnected_at is None,
        old(client).back_at matches Some(at) ==> final(client).comebacks_ns@
            == old(client).comebacks_ns@.push((now - at) as u128),
        old(client).back_at is None ==> final(client).comebacks_ns@ == old(client).comebacks_ns@,
        final(client).acked == old(client).acked && final(client).sent == old(client).sent,
{
    let before = old(client)@;
    let after = final(client)@;
    assert(after == before.after(Event::Connected { now }));
}

} // verus!
