//! A soak run: a steady stream of messages over one session, without loss,
//! without disconnects and without unbounded memory.

use bytes::Bytes;
use vstd::prelude::*;

use crate::binary64::Binary64;
use crate::binary64;
use crate::env;
use crate::env::Environment;
use crate::resources;
use crate::time;
use crate::time::Duration;
use crate::wire;
use crate::workload;
use crate::workload::Paced;

verus! {

/// Bytes in a message.
pub const PAYLOAD_LEN: usize = 64;

/// What a message is filled with.
pub const PAYLOAD_BYTE: u8 = 0xCC;

/// Seconds in a window.
pub const WINDOW_SECS: u64 = 2;

/// Milliseconds that the last answers have to arrive.
pub const GRACE_MS: u64 = 500;

/// The settings of a run.
#[derive(Clone, Copy, PartialEq, Eq, Structural, Debug)]
pub struct Config {
    pub secs: u64,
    /// The period of the messages.
    pub period: Duration,
    /// The largest growth of the peak memory between windows, in percent.
    pub max_growth_pct: Binary64,
}

impl Config {
    /// The settings that an environment asks for.
    pub fn from_env(e: &Environment) -> (r: Config)
        ensures
            r.secs == env::asked_whole(e, "QA_SOAK_SECS"@, u64::MAX as nat, 30),
            r.period.nanos == env::asked_whole(e, "QA_PERIOD_MS"@, u64::MAX as nat, 20)
                * time::NANOS_PER_MILLI,
            match e.number_of("QA_RSS_GROWTH_PCT"@) {
                Some(n) => r.max_growth_pct == n,
                None => r.max_growth_pct@ == binary64::Value::of(50),
            },
    {
        let secs: u64 = env::env_or(e, "QA_SOAK_SECS", 30u64);
        Config {
            secs,
            period: env::duration_millis(e, "QA_PERIOD_MS", 20),
            max_growth_pct: env::env_number_or(e, "QA_RSS_GROWTH_PCT", Binary64::of(50)),
        }
    }

    /// The workload of a run that starts now.
    pub fn workload(&self, now: u128) -> (r: Paced)
        ensures
            r == (Paced {
                total: workload::iterations(self.secs as nat, self.period) as usize,
                sent: 0,
                failed: false,
                window: Duration { nanos: 2_000_000_000 },
                window_start: now,
                window_acked: 0,
            }),
            r.in_bounds(),
    {
        let total: usize = workload::total_iterations(self.secs, self.period);
        Paced::new(total, Duration::from_secs(WINDOW_SECS), now)
    }
}

/// The message that a run sends over and over.
pub fn payload() -> (r: Bytes)
    ensures
        wire::contents(r) == Seq::new(PAYLOAD_LEN as nat, |i: int| PAYLOAD_BYTE),
{
    wire::filler(PAYLOAD_BYTE, PAYLOAD_LEN)
}

/// What the client has seen.
#[derive(Clone, Copy, PartialEq, Eq, Structural, Debug)]
pub struct Client {
    pub acked: usize,
    /// Closed sessions and errors of the service.
    pub disconnects: u64,
}

impl Client {
    pub fn new() -> (r: Client)
        ensures
            r == (Client { acked: 0, disconnects: 0 }),
    {
        Client { acked: 0, disconnects: 0 }
    }

    /// An answer arrived.
    pub fn on_answer(&mut self)
        ensures
            *final(self) == (Client { acked: old(self).acked.wrapping_add(1), ..*old(self) }),
    {
        self.acked = self.acked.wrapping_add(1);
    }

    /// The service reported an error, or that the session closed.
    pub fn on_disconnect(&mut self)
        ensures
            *final(self) == (Client {
                disconnects: old(self).disconnects.wrapping_add(1),
                ..*old(self)
            }),
    {
        self.disconnects = self.disconnects.wrapping_add(1);
    }
}

/// Whether `least` is the least of the samples, or the fallback where there
/// are none.
pub open spec fn is_least(samples: Seq<u64>, fallback: u64, least: u64) -> bool {
    if samples.len() == 0 {
        least == fallback
    } else {
        &&& samples.contains(least)
        &&& forall|i: int| 0 <= i < samples.len() ==> least <= #[trigger] samples[i]
    }
}

/// Whether `largest` is the largest of the samples, or the fallback where
/// there are none.
pub open spec fn is_largest(samples: Seq<u64>, fallback: u64, largest: u64) -> bool {
    if samples.len() == 0 {
        largest == fallback
    } else {
        &&& samples.contains(largest)
        &&& forall|i: int| 0 <= i < samples.len() ==> #[trigger] samples[i] <= largest
    }
}

fn extremes(samples: &Vec<u64>, start: u64, end: u64) -> (r: (u64, u64))
    ensures
        is_least(samples@, start, r.0),
        is_largest(samples@, end, r.1),
{
    if samples.len() == 0 {
        return (start, end);
    }
    let mut least: u64 = samples[0];
    let mut largest: u64 = samples[0];
    let mut i: usize = 1;
    while i < samples.len()
        invariant
            1 <= i <= samples@.len(),
            samples@.contains(least),
            samples@.contains(largest),
            forall|k: int| 0 <= k < i ==> least <= #[trigger] samples@[k] <= largest,
        decreases samples@.len() - i,
    {
        let here: u64 = samples[i];
        proof {
            assert(samples@.contains(samples@[i as int]));
        }
        if here < least {
            least = here;
        }
        if here > largest {
            largest = here;
        }
        i = i + 1;
    }
    (least, largest)
}

/// The outcome of a run.
#[derive(Clone, Copy, PartialEq, Eq, Structural, Debug)]
pub struct Verdict {
    pub loss: usize,
    pub rss_min: u64,
    pub rss_max: u64,
    pub growth_pct: Binary64,
    /// Whether every message could be sent.
    pub all_sent: bool,
    /// Whether every message was answered.
    pub lossless: bool,
    /// Whether the session stayed open.
    pub undisturbed: bool,
    /// Whether the memory stayed bounded.
    pub memory_bounded: bool,
}

impl Verdict {
    pub open spec fn is_pass(self) -> bool {
        self.all_sent && self.lossless && self.undisturbed && self.memory_bounded
    }

    /// Whether the run passed.
    pub fn passed(self) -> (r: bool)
        ensures
            r == self.is_pass(),
    {
        self.all_sent && self.lossless && self.undisturbed && self.memory_bounded
    }
}

/// Judges a run, with the peak memory at its start, in its windows and at its
/// end.
pub fn judge(
    cfg: &Config,
    run: &Paced,
    client: &Client,
    start_rss: u64,
    window_rss: &Vec<u64>,
    end_rss: u64,
) -> (r: Verdict)
    ensures
        r.loss == workload::unanswered(run.sent as nat, client.acked as nat),
        is_least(window_rss@, start_rss, r.rss_min),
        is_largest(window_rss@, end_rss, r.rss_max),
        r.growth_pct@ == resources::growth_value(r.rss_min as nat, r.rss_max as nat),
        r.all_sent == !run.failed,
        r.lossless == (client.acked >= run.sent),
        r.undisturbed == (client.disconnects == 0),
        r.memory_bounded == !cfg.max_growth_pct@.less(r.growth_pct@),
{
    let (rss_min, rss_max): (u64, u64) = extremes(window_rss, start_rss, end_rss);
    let growth_pct: Binary64 = resources::growth_pct(rss_min, rss_max);
    let loss: usize = workload::loss(run.sent, client.acked);
    Verdict {
        loss,
        rss_min,
        rss_max,
        growth_pct,
        all_sent: !run.failed,
        lossless: loss == 0,
        undisturbed: client.disconnects == 0,
        memory_bounded: !cfg.max_growth_pct.less(growth_pct),
    }
}

/// Least and largest are settled by the samples: whatever the order in which
/// they were taken, the verdict on memory is the same.
pub proof fn law_extremes_are_unique(samples: Seq<u64>, start: u64, end: u64)
    ensures
        forall|a: u64, b: u64|
            is_least(samples, start, a) && is_least(samples, start, b) ==> a == b,
        forall|a: u64, b: u64|
            is_largest(samples, end, a) && is_largest(samples, end, b) ==> a == b,
{
    assert forall|a: u64, b: u64|
        is_least(samples, start, a) && is_least(samples, start, b) implies a == b by {
        if samples.len() > 0 {
            let i = choose|i: int| 0 <= i < samples.len() && samples[i] == a;
            let j = choose|j: int| 0 <= j < samples.len() && samples[j] == b;
            assert(samples[i] == a && samples[j] == b);
        }
    }
    assert forall|a: u64, b: u64|
        is_largest(samples, end, a) && is_largest(samples, end, b) implies a == b by {
        if samples.len() > 0 {
            let i = choose|i: int| 0 <= i < samples.len() && samples[i] == a;
            let j = choose|j: int| 0 <= j < samples.len() && samples[j] == b;
            assert(samples[i] == a && samples[j] == b);
        }
    }
}

/// The least and the largest sample are samples that no other one exceeds
/// either way; without samples the sizes at the start and at the end take
/// their place.
pub proof fn law_extremes_bound_the_samples(
    samples: Seq<u64>,
    start: u64,
    end: u64,
    least: u64,
    largest: u64,
)
    requires
        is_least(samples, start, least),
        is_largest(samples, end, largest),
    ensures
        samples.len() == 0 ==> least == start && largest == end,
        samples.len() > 0 ==> samples.contains(least) && samples.contains(largest),
        forall|i: int| 0 <= i < samples.len() ==> least <= #[trigger] samples[i] <= largest,
{
}

/// A run passes exactly where every part of its verdict holds.
pub proof fn law_pass_needs_every_part(v: Verdict)
    ensures
        v.is_pass() <==> v.all_sent && v.lossless && v.undisturbed && v.memory_bounded,
{
}

/// A run passes exactly where every message could be sent and was answered, the
/// session stayed open, and the memory of the windows did not grow beyond the
/// limit from its least to its largest size.
pub proof fn law_verdict_weighs_loss_and_memory(
    cfg: Config,
    run: Paced,
    client: Client,
    start_rss: u64,
    window_rss: Vec<u64>,
    end_rss: u64,
    v: Verdict,
)
    requires
        call_ensures(judge, (&cfg, &run, &client, start_rss, &window_rss, end_rss), v),
        window_rss@.len() > 0,
    ensures
        v.is_pass() <==> !run.failed && client.acked >= run.sent && client.disconnects == 0
            && !cfg.max_growth_pct@.less(
            resources::growth_value(v.rss_min as nat, v.rss_max as nat),
        ),
        window_rss@.contains(v.rss_min) && window_rss@.contains(v.rss_max),
        forall|i: int|
            0 <= i < window_rss@.len() ==> v.rss_min <= #[trigger] window_rss@[i] <= v.rss_max,
        client.acked <= run.sent ==> v.loss + client.acked == run.sent,
{
}

} // verus!
