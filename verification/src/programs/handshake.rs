//! A storm of handshakes: many clients dial one server at once, and enough of
//! them have to be connected soon enough.

use vstd::arithmetic::power2::*;
use vstd::prelude::*;

use crate::binary64;
use crate::binary64::Binary64;
use crate::env;
use crate::env::Environment;
use crate::rounding;
use crate::stats;
use crate::stats::Percentiles;
use crate::time;
use crate::time::Duration;

verus! {

/// The settings of a run.
#[derive(Clone, Copy, PartialEq, Eq, Structural, Debug)]
pub struct Config {
    pub clients: usize,
    /// The budget of each handshake.
    pub budget: Duration,
    /// The least share of clients that must be connected in time.
    pub min_success: Binary64,
    /// The cap on the 95th percentile of the handshakes; zero for none.
    pub max_p95_ms: u64,
}

impl Config {
    /// The settings that an environment asks for.
    pub fn from_env(e: &Environment) -> (r: Config)
        ensures
            r.clients == env::asked_whole(e, "QA_HS_CLIENTS"@, usize::MAX as nat, 100),
            r.budget.nanos == env::asked_whole(e, "QA_HS_TIMEOUT_S"@, u64::MAX as nat, 20)
                * time::NANOS_PER_SEC,
            match e.number_of("QA_HS_MIN_SUCCESS"@) {
                Some(n) => r.min_success == n,
                None => r.min_success@ == binary64::Value::of(1),
            },
            r.max_p95_ms == env::asked_whole(e, "QA_HS_MAX_P95_MS"@, u64::MAX as nat, 0),
    {
        let clients: usize = env::env_or(e, "QA_HS_CLIENTS", 100usize);
        let max_p95_ms: u64 = env::env_or(e, "QA_HS_MAX_P95_MS", 0u64);
        Config {
            clients,
            budget: env::duration_secs(e, "QA_HS_TIMEOUT_S", 20),
            min_success: env::env_number_or(e, "QA_HS_MIN_SUCCESS", Binary64::of(1)),
            max_p95_ms,
        }
    }
}

/// One handshake. Instants are in nanoseconds.
#[derive(Clone, Copy, PartialEq, Eq, Structural, Debug)]
pub struct Handshake {
    pub started: u128,
    pub connected: Option<u128>,
}

/// How long a handshake took, where it was done within the budget.
pub open spec fn latency_of(h: Handshake, budget: Duration) -> Option<u128> {
    match h.connected {
        Some(at) => if time::between(h.started as nat, at as nat) <= budget.nanos {
            Some(time::between(h.started as nat, at as nat) as u128)
        } else {
            None
        },
        None => None,
    }
}

/// Whether nothing can change about the success of a handshake any more.
pub open spec fn settled(h: Handshake, budget: Duration, now: u128) -> bool {
    h.connected is Some || time::between(h.started as nat, now as nat) > budget.nanos
}

/// The latencies of the handshakes that were done within the budget.
pub open spec fn latencies_of(list: Seq<Handshake>, budget: Duration) -> Seq<u128>
    decreases list.len(),
{
    if list.len() == 0 {
        Seq::empty()
    } else {
        match latency_of(list.last(), budget) {
            Some(ns) => latencies_of(list.drop_last(), budget).push(ns),
            None => latencies_of(list.drop_last(), budget),
        }
    }
}

/// The handshakes of a run.
pub struct Storm {
    pub handshakes: Vec<Handshake>,
    pub budget: Duration,
}

impl Storm {
    pub fn new(budget: Duration) -> (r: Storm)
        ensures
            r.budget == budget,
            r.handshakes@ == Seq::<Handshake>::empty(),
    {
        Storm { handshakes: Vec::new(), budget }
    }

    /// A client dials. Returns its number.
    pub fn on_dial(&mut self, now: u128) -> (r: usize)
        ensures
            r == old(self).handshakes@.len(),
            final(self).budget == old(self).budget,
            final(self).handshakes@ == old(self).handshakes@.push(
                Handshake { started: now, connected: None },
            ),
    {
        let number: usize = self.handshakes.len();
        self.handshakes.push(Handshake { started: now, connected: None });
        number
    }

    /// A client is connected; only the first time counts.
    pub fn on_connected(&mut self, i: usize, now: u128)
        requires
            i < old(self).handshakes@.len(),
        ensures
            final(self).budget == old(self).budget,
            final(self).handshakes@ == (if old(self).handshakes@[i as int].connected is None {
                old(self).handshakes@.update(
                    i as int,
                    Handshake { connected: Some(now), ..old(self).handshakes@[i as int] },
                )
            } else {
                old(self).handshakes@
            }),
    {
        let before: Handshake = self.handshakes[i];
        if before.connected.is_none() {
            self.handshakes.set(i, Handshake { started: before.started, connected: Some(now) });
        }
    }

    /// Whether nothing can change about the outcome any more.
    pub fn is_settled(&self, now: u128) -> (r: bool)
        ensures
            r == forall|i: int|
                0 <= i < self.handshakes@.len() ==> settled(
                    #[trigger] self.handshakes@[i],
                    self.budget,
                    now,
                ),
    {
        let mut i: usize = 0;
        while i < self.handshakes.len()
            invariant
                i <= self.handshakes@.len(),
                forall|k: int|
                    0 <= k < i ==> settled(#[trigger] self.handshakes@[k], self.budget, now),
            decreases self.handshakes@.len() - i,
        {
            let h: Handshake = self.handshakes[i];
            if h.connected.is_none() && time::elapsed(h.started, now).nanos <= self.budget.nanos {
                assert(!settled(self.handshakes@[i as int], self.budget, now));
                return false;
            }
            i = i + 1;
        }
        true
    }

    /// The latencies of the handshakes that were done within the budget.
    pub fn latencies(&self) -> (r: Vec<u128>)
        ensures
            r@ == latencies_of(self.handshakes@, self.budget),
    {
        let mut out: Vec<u128> = Vec::new();
        let mut i: usize = 0;
        proof {
            assert(self.handshakes@.take(0) =~= Seq::empty());
        }
        while i < self.handshakes.len()
            invariant
                i <= self.handshakes@.len(),
                out@ == latencies_of(self.handshakes@.take(i as int), self.budget),
            decreases self.handshakes@.len() - i,
        {
            proof {
                assert(self.handshakes@.take(i + 1).drop_last() =~= self.handshakes@.take(
                    i as int,
                ));
            }
            let h: Handshake = self.handshakes[i];
            if let Some(at) = h.connected {
                let ns: u128 = time::elapsed(h.started, at).nanos;
                if ns <= self.budget.nanos {
                    out.push(ns);
                }
            }
            i = i + 1;
        }
        proof {
            assert(self.handshakes@.take(self.handshakes@.len() as int) =~= self.handshakes@);
        }
        out
    }
}

/// The outcome of a run.
#[derive(Clone, Copy, PartialEq, Eq, Structural, Debug)]
pub struct Verdict {
    /// The share of clients that were connected in time.
    pub ratio: Binary64,
    pub latency: Percentiles,
    /// Whether enough clients were connected in time.
    pub enough: bool,
    /// Whether the handshakes kept the cap.
    pub fast: bool,
}

impl Verdict {
    pub open spec fn is_pass(self) -> bool {
        self.enough && self.fast
    }

    /// Whether the run passed.
    pub fn passed(self) -> (r: bool)
        ensures
            r == self.is_pass(),
    {
        self.enough && self.fast
    }
}

/// The share of clients that were connected in time; not a number without
/// clients.
pub open spec fn success_value(connected: nat, clients: nat) -> binary64::Value {
    binary64::Value::of(connected).over(binary64::Value::of(clients))
}

/// Judges a run.
pub fn judge(cfg: &Config, storm: &Storm) -> (r: Verdict)
    ensures
        r.ratio@ == success_value(
            latencies_of(storm.handshakes@, storm.budget).len(),
            cfg.clients as nat,
        ),
        stats::percentiles_of(latencies_of(storm.handshakes@, storm.budget), r.latency),
        r.enough == !r.ratio@.less(cfg.min_success@),
        r.fast == stats::within_cap(r.latency.p95 as nat, cfg.max_p95_ms as nat),
{
    let samples: Vec<u128> = storm.latencies();
    let ratio: Binary64 = Binary64::of(samples.len() as u128).over(
        Binary64::of(cfg.clients as u128),
    );
    let latency: Percentiles = stats::percentiles(samples);
    Verdict {
        ratio,
        latency,
        enough: !ratio.less(cfg.min_success),
        fast: stats::keeps_cap(latency.p95, cfg.max_p95_ms),
    }
}

/// No more handshakes succeed than were begun, and none takes longer than the
/// budget.
pub proof fn law_successes_are_in_budget(list: Seq<Handshake>, budget: Duration)
    ensures
        latencies_of(list, budget).len() <= list.len(),
        forall|i: int|
            0 <= i < latencies_of(list, budget).len() ==> #[trigger] latencies_of(list, budget)[i]
                <= budget.nanos,
    decreases list.len(),
{
    if list.len() > 0 {
        law_successes_are_in_budget(list.drop_last(), budget);
    }
}

/// Once a handshake is settled, a connection that comes later does not change
/// whether it succeeded.
pub proof fn law_settled_stays(h: Handshake, budget: Duration, now: u128, later: u128)
    requires
        settled(h, budget, now),
        now <= later,
        h.connected is None,
    ensures
        latency_of(Handshake { connected: Some(later), ..h }, budget) is None,
        settled(h, budget, later),
{
}

/// The latencies of two groups of clients are those of the one and then those
/// of the other: no client changes the latency of another.
pub proof fn law_latencies_are_independent(a: Seq<Handshake>, b: Seq<Handshake>, budget: Duration)
    ensures
        latencies_of(a + b, budget) == latencies_of(a, budget) + latencies_of(b, budget),
    decreases b.len(),
{
    if b.len() == 0 {
        assert(a + b =~= a);
        assert(latencies_of(a, budget) + latencies_of(b, budget) =~= latencies_of(a, budget));
    } else {
        law_latencies_are_independent(a, b.drop_last(), budget);
        assert((a + b).drop_last() =~= a + b.drop_last());
        assert((a + b).last() == b.last());
        assert(latencies_of(a + b, budget) =~= latencies_of(a, budget) + latencies_of(b, budget));
    }
}

/// The latency of a client is the time from its own dial to its own first
/// connect, where it connected and that time is within the budget.
pub proof fn law_latency_is_from_dial_to_connect(h: Handshake, budget: Duration)
    ensures
        h.connected is None ==> latencies_of(seq![h], budget) == Seq::<u128>::empty(),
        h.connected matches Some(at) ==> at >= h.started ==> latencies_of(seq![h], budget) == (if at
            - h.started <= budget.nanos {
            seq![(at - h.started) as u128]
        } else {
            Seq::empty()
        }),
{
    assert(seq![h].drop_last() =~= Seq::empty());
    assert(latencies_of(seq![h].drop_last(), budget) =~= Seq::empty());
    assert(seq![h].last() == h);
    assert(latencies_of(seq![h], budget) =~= match latency_of(h, budget) {
        Some(ns) => seq![ns],
        None => Seq::empty(),
    });
}

/// The latencies are those of the clients that connected within the budget, in
/// the order of the dials: each is the time from the client's own dial to its
/// own connect.
pub proof fn law_latencies_follow_the_dials(list: Seq<Handshake>, budget: Duration)
    ensures
        latencies_of(list, budget) == list.filter(
            |h: Handshake|
                h.connected matches Some(at) && (at > h.started ==> at - h.started <= budget.nanos),
        ).map_values(
            |h: Handshake|
                if h.connected->0 > h.started {
                    (h.connected->0 - h.started) as u128
                } else {
                    0u128
                },
        ),
    decreases list.len(),
{
    reveal(Seq::filter);
    let in_time = |h: Handshake|
        h.connected matches Some(at) && (at > h.started ==> at - h.started <= budget.nanos);
    let taken = |h: Handshake|
        if h.connected->0 > h.started {
            (h.connected->0 - h.started) as u128
        } else {
            0u128
        };
    if list.len() > 0 {
        law_latencies_follow_the_dials(list.drop_last(), budget);
        let before = list.drop_last().filter(in_time);
        if in_time(list.last()) {
            assert(before.push(list.last()).map_values(taken) =~= before.map_values(taken).push(
                taken(list.last()),
            ));
        }
        assert(latencies_of(list, budget) =~= list.filter(in_time).map_values(taken));
    } else {
        assert(latencies_of(list, budget) =~= list.filter(in_time).map_values(taken));
    }
}

/// A client is settled exactly where it is connected, or where it would be too
/// late to connect now.
pub proof fn law_settled_is_done_or_too_late(h: Handshake, budget: Duration, now: u128)
    ensures
        h.connected is Some ==> settled(h, budget, now),
        h.connected is None ==> (settled(h, budget, now) <==> now > h.started + budget.nanos),
        h.connected is None ==> (settled(h, budget, now) <==> latencies_of(
            seq![Handshake { connected: Some(now), ..h }],
            budget,
        ).len() == 0),
{
    let late = Handshake { connected: Some(now), ..h };
    law_latency_is_from_dial_to_connect(late, budget);
    assert(seq![late].drop_last() =~= Seq::empty());
    assert(latencies_of(seq![late].drop_last(), budget) =~= Seq::empty());
}

/// The success ratio is the number nearest to the clients connected in time
/// over all clients; it is one exactly where all are.
pub proof fn law_success_is_the_share_of_clients(connected: nat, clients: nat)
    requires
        connected <= clients,
        0 < clients <= rounding::SIGNIFICAND_LIMIT,
    ensures
        success_value(connected, clients) == binary64::Value::ratio(connected, clients),
        connected == clients ==> success_value(connected, clients) == binary64::Value::of(1),
        clients <= 0x10_0000 && connected < clients ==> success_value(connected, clients).less(
            binary64::Value::of(1),
        ),
{
    binary64::law_quotient_is_nearest(connected, clients);
    if connected == clients {
        binary64::lemma_over_self(clients);
    } else if clients <= 0x10_0000 {
        let u = binary64::unit();
        binary64::lemma_ratio_finite(connected, clients);
        binary64::lemma_of_exact(1);
        lemma_pow2_pos(1054);
        lemma_pow2_adds(20, 1054);
        lemma2_to64();
        let fine = pow2(1054);
        assert(connected * u <= (0xF_FFFF * fine) * clients) by (nonlinear_arith)
            requires
                connected <= clients - 1,
                clients <= 0x10_0000,
                u == 0x10_0000 * fine,
        {
            assert(connected * 0x10_0000 <= 0xF_FFFF * clients);
        }
        rounding::lemma_round_at_most(connected * u, clients, 0xF_FFFF, 1054);
    }
}

/// A run passes exactly where enough clients were connected in time and the
/// handshakes kept the cap.
pub proof fn law_pass_needs_every_part(v: Verdict)
    ensures
        v.is_pass() <==> v.enough && v.fast,
{
}

/// A run passes exactly where the clients that connected within the budget of
/// their own dial are a large enough share of all clients, and where the 95th
/// percentile of their times keeps the cap.
pub proof fn law_verdict_weighs_successes_and_latency(
    cfg: Config,
    storm: Storm,
    sorted: Seq<u128>,
    v: Verdict,
)
    requires
        call_ensures(judge, (&cfg, &storm), v),
        0 < sorted.len() <= 0x2000_0000_0000,
        sorted.len() <= cfg.clients <= rounding::SIGNIFICAND_LIMIT,
        forall|i: int, j: int| 0 <= i <= j < sorted.len() ==> sorted[i] <= sorted[j],
        sorted.to_multiset() == latencies_of(storm.handshakes@, storm.budget).to_multiset(),
        cfg.max_p95_ms <= u32::MAX,
    ensures
        v.is_pass() <==> !binary64::Value::ratio(sorted.len(), cfg.clients as nat).less(
            cfg.min_success@,
        ) && (cfg.max_p95_ms == 0 || sorted[((sorted.len() - 1) * 95 + 50) / 100] <= cfg.max_p95_ms
            * 1_000_000),
{
    let samples = latencies_of(storm.handshakes@, storm.budget);
    samples.to_multiset_ensures();
    sorted.to_multiset_ensures();
    stats::law_percentiles_are_the_samples_at_their_rank(samples, sorted, v.latency);
    stats::law_cap_is_exact(v.latency.p95, cfg.max_p95_ms);
    law_success_is_the_share_of_clients(sorted.len(), cfg.clients as nat);
}

/// A client that dials is timed from then; it is connected when it first says
/// so, and no other client is touched.
pub proof fn law_first_connect_counts(storm: &mut Storm, i: usize, now: u128, other: int)
    requires
        call_ensures(Storm::on_connected, (storm, i, now), ()),
        i < storm.handshakes@.len(),
        0 <= other < storm.handshakes@.len(),
        other != i,
    ensures
        final(storm).handshakes@.len() == old(storm).handshakes@.len(),
        final(storm).handshakes@[other] == old(storm).handshakes@[other],
        final(storm).handshakes@[i as int].started == old(storm).handshakes@[i as int].started,
        old(storm).handshakes@[i as int].connected is None ==> final(storm).handshakes@[i as int].connected
            == Some(now),
        old(storm).handshakes@[i as int].connected is Some ==> final(storm).handshakes@[i as int]
            == old(storm).handshakes@[i as int],
{
}

/// A dial adds a client of the next number, timed from then and not connected.
pub proof fn law_dial_starts_the_time(storm: &mut Storm, now: u128, number: usize)
    requires
        call_ensures(Storm::on_dial, (storm, now), number),
    ensures
        number == old(storm).handshakes@.len(),
        final(storm).handshakes@.len() == number + 1,
        final(storm).handshakes@[number as int] == (Handshake { started: now, connected: None }),
        forall|k: int|
            0 <= k < number ==> #[trigger] final(storm).handshakes@[k] == old(storm).handshakes@[k],
{
}

/// The latencies that are computed are those from each client's own dial to its
/// own connect, and a run is settled once nobody can connect in time any more.
pub proof fn law_computed_latencies(storm: Storm, now: u128, r: Vec<u128>, settled: bool)
    requires
        call_ensures(Storm::latencies, (&storm,), r),
        call_ensures(Storm::is_settled, (&storm, now), settled),
    ensures
        r@ == storm.handshakes@.filter(
            |h: Handshake|
                h.connected matches Some(at) && (at > h.started ==> at - h.started
                    <= storm.budget.nanos),
        ).map_values(
            |h: Handshake|
                if h.connected->0 > h.started {
                    (h.connected->0 - h.started) as u128
                } else {
                    0u128
                },
        ),
        settled <==> forall|i: int|
            0 <= i < storm.handshakes@.len() ==> (#[trigger] storm.handshakes@[i]).connected is Some
                || now > storm.handshakes@[i].started + storm.budget.nanos,
{
    law_latencies_follow_the_dials(storm.handshakes@, storm.budget);
    if settled {
        assert forall|i: int| 0 <= i < storm.handshakes@.len() implies (
        #[trigger] storm.handshakes@[i]).connected is Some || now > storm.handshakes@[i].started
            + storm.budget.nanos by {
            law_settled_is_done_or_too_late(storm.handshakes@[i], storm.budget, now);
        }
    } else {
        let i = choose|i: int|
            0 <= i < storm.handshakes@.len() && !self::settled(
                #[trigger] storm.handshakes@[i],
                storm.budget,
                now,
            );
        law_settled_is_done_or_too_late(storm.handshakes@[i], storm.budget, now);
    }
}

} // verus!
