//! The same request and response workload over TCP and over QUIC: both have
//! to finish within a budget and without failures.

use bytes::Bytes;
use vstd::prelude::*;

use crate::binary64;
use crate::binary64::Binary64;
use crate::env;
use crate::env::Environment;
use crate::rounding;
use crate::stats;
use crate::stats::Percentiles;
use crate::time;
use crate::time::Duration;
use crate::wire;
use crate::workload;

verus! {

/// What a request is filled with.
pub const PAYLOAD_BYTE: u8 = 0xA5;

/// Seconds that a request waits for its answer.
pub const ANSWER_SECS: u64 = 2;

/// The settings of a run.
#[derive(Clone, Copy, PartialEq, Eq, Structural, Debug)]
pub struct Config {
    pub requests: usize,
    /// Bytes in a request.
    pub payload: usize,
    /// The budget of each transport.
    pub budget: Duration,
}

impl Config {
    /// The settings that an environment asks for.
    pub fn from_env(e: &Environment) -> (r: Config)
        ensures
            r.requests == env::asked_whole(e, "QA_REQUESTS"@, usize::MAX as nat, 2000),
            r.payload == env::asked_whole(e, "QA_PAYLOAD"@, usize::MAX as nat, 1024),
            r.budget.nanos == env::asked_whole(e, "QA_TIMEOUT_MS"@, u64::MAX as nat, 15_000)
                * time::NANOS_PER_MILLI,
    {
        let requests: usize = env::env_or(e, "QA_REQUESTS", 2000usize);
        let payload: usize = env::env_or(e, "QA_PAYLOAD", 1024usize);
        Config { requests, payload, budget: env::duration_millis(e, "QA_TIMEOUT_MS", 15_000) }
    }
}

/// The requests of one transport, one at a time.
pub struct Exchange {
    pub requests: usize,
    /// Bytes in a request, and in its answer.
    pub payload: usize,
    /// How many requests were begun.
    pub begun: usize,
    /// Whether the last request is still waited for.
    pub waiting: bool,
    /// How many requests could not be sent or were not answered in time.
    pub failures: usize,
    /// Whether the budget ran out before the last request.
    pub gave_up: bool,
    /// When the request was sent that is still to be answered.
    pub in_flight: Option<u128>,
    /// The latency of each answer; none for an answer of the wrong length.
    pub answers: Vec<Option<u128>>,
}

/// How a request ended.
#[derive(Clone, Copy, PartialEq, Eq, Structural, Debug)]
pub enum Outcome {
    /// It could not be sent.
    NotSent,
    /// No answer came in time.
    TimedOut,
    /// An answer came.
    Answered,
}

impl Exchange {
    /// Whether every request has at most one answer and one failure, and none
    /// goes without both once it is over.
    pub open spec fn in_order(&self) -> bool {
        &&& self.begun <= self.requests
        &&& self.answers@.len() + (if self.in_flight is Some {
            1nat
        } else {
            0nat
        }) <= self.begun
        &&& self.failures + (if self.waiting {
            1nat
        } else {
            0nat
        }) <= self.begun
        &&& self.answers@.len() + self.failures + (if self.waiting && self.in_flight is Some {
            1nat
        } else {
            0nat
        }) >= self.begun
    }

    pub fn new(requests: usize, payload: usize) -> (r: Exchange)
        ensures
            r.in_order(),
            r.requests == requests,
            r.payload == payload,
            r.begun == 0,
            !r.waiting,
            r.failures == 0,
            !r.gave_up,
            r.in_flight is None,
            r.answers@ == Seq::<Option<u128>>::empty(),
    {
        Exchange {
            requests,
            payload,
            begun: 0,
            waiting: false,
            failures: 0,
            gave_up: false,
            in_flight: None,
            answers: Vec::new(),
        }
    }

    /// Begins the next request, if there is one and the budget has not run
    /// out.
    pub fn begin(&mut self, started: u128, now: u128, budget: Duration) -> (r: bool)
        requires
            old(self).in_order(),
            !old(self).waiting,
        ensures
            final(self).in_order(),
            final(self).requests == old(self).requests,
            final(self).payload == old(self).payload,
            final(self).failures == old(self).failures,
            final(self).answers@ == old(self).answers@,
            r == (!old(self).gave_up && old(self).begun < old(self).requests && time::between(
                started as nat,
                now as nat,
            ) <= budget.nanos),
            r ==> final(self).begun == old(self).begun + 1 && final(self).waiting && final(self).in_flight == Some(now) && !final(self).gave_up,
            !r ==> final(self).begun == old(self).begun && !final(self).waiting && final(self).in_flight == old(self).in_flight,
            !r ==> final(self).gave_up == (old(self).gave_up || old(self).begun < old(self).requests),
    {
        if self.gave_up || self.begun == self.requests {
            return false;
        }
        if time::elapsed(started, now).nanos > budget.nanos {
            self.gave_up = true;
            return false;
        }
        self.begun = self.begun + 1;
        self.waiting = true;
        self.in_flight = Some(now);
        true
    }

    /// Takes a message: the answer to the request in flight, if there is one.
    /// Says whether the request is answered.
    pub fn on_message(&mut self, data: &Bytes, now: u128) -> (r: bool)
        requires
            old(self).in_order(),
        ensures
            final(self).in_order(),
            final(self).requests == old(self).requests,
            final(self).payload == old(self).payload,
            final(self).begun == old(self).begun,
            final(self).waiting == old(self).waiting,
            final(self).failures == old(self).failures,
            final(self).gave_up == old(self).gave_up,
            final(self).in_flight is None,
            match old(self).in_flight {
                None => !r && final(self).answers@ == old(self).answers@,
                Some(sent) => r && final(self).answers@ == old(self).answers@.push(
                    if wire::contents(*data).len() == old(self).payload {
                        Some(time::between(sent as nat, now as nat) as u128)
                    } else {
                        None
                    },
                ),
            },
    {
        match self.in_flight {
            None => false,
            Some(sent) => {
                self.in_flight = None;
                if wire::message_len(data) == self.payload {
                    self.answers.push(Some(time::elapsed(sent, now).nanos));
                } else {
                    self.answers.push(None);
                }
                true
            },
        }
    }

    /// Whether the request that is waited for is answered.
    pub fn is_answered(&self) -> (r: bool)
        ensures
            r == (self.waiting && self.in_flight is None),
    {
        self.waiting && self.in_flight.is_none()
    }

    /// Ends the request that is waited for, as answered only where it is.
    pub fn end(&mut self, outcome: Outcome)
        requires
            old(self).in_order(),
            old(self).waiting,
            outcome == Outcome::Answered ==> old(self).in_flight is None,
        ensures
            final(self).in_order(),
            final(self).requests == old(self).requests,
            final(self).payload == old(self).payload,
            final(self).begun == old(self).begun,
            !final(self).waiting,
            final(self).gave_up == old(self).gave_up,
            final(self).answers@ == old(self).answers@,
            final(self).in_flight is None,
            final(self).failures == old(self).failures + (if outcome == Outcome::Answered {
                0int
            } else {
                1
            }),
    {
        self.waiting = false;
        match outcome {
            Outcome::Answered => {},
            _ => {
                self.failures = self.failures + 1;
                self.in_flight = None;
            },
        }
    }
}

/// The latencies of the answers of the right length.
pub open spec fn good_of(answers: Seq<Option<u128>>) -> Seq<u128>
    decreases answers.len(),
{
    if answers.len() == 0 {
        Seq::empty()
    } else {
        match answers.last() {
            Some(ns) => good_of(answers.drop_last()).push(ns),
            None => good_of(answers.drop_last()),
        }
    }
}

/// How many answers were of the wrong length.
pub open spec fn bad_of(answers: Seq<Option<u128>>) -> nat {
    (answers.len() - good_of(answers).len()) as nat
}

proof fn lemma_good_len(answers: Seq<Option<u128>>)
    ensures
        good_of(answers).len() <= answers.len(),
    decreases answers.len(),
{
    if answers.len() > 0 {
        lemma_good_len(answers.drop_last());
    }
}

fn good(answers: &Vec<Option<u128>>) -> (r: Vec<u128>)
    ensures
        r@ == good_of(answers@),
{
    let mut out: Vec<u128> = Vec::new();
    let mut i: usize = 0;
    proof {
        assert(answers@.take(0) =~= Seq::empty());
    }
    while i < answers.len()
        invariant
            i <= answers@.len(),
            out@ == good_of(answers@.take(i as int)),
        decreases answers@.len() - i,
    {
        proof {
            assert(answers@.take(i + 1).drop_last() =~= answers@.take(i as int));
        }
        if let Some(ns) = answers[i] {
            out.push(ns);
        }
        i = i + 1;
    }
    proof {
        assert(answers@.take(answers@.len() as int) =~= answers@);
    }
    out
}

/// The failures of an exchange: failed requests, answers of the wrong length,
/// and all requests over again where the budget ran out.
pub open spec fn all_failures(x: Exchange) -> nat {
    x.failures as nat + bad_of(x.answers@) + if x.gave_up {
        x.requests as nat
    } else {
        0
    }
}

/// The result of one transport.
#[derive(Clone, Copy, PartialEq, Eq, Structural, Debug)]
pub struct Run {
    pub requests: usize,
    pub payload: usize,
    pub elapsed: Duration,
    pub latency: Percentiles,
    /// Answers per second.
    pub rate: Binary64,
    pub failures: u128,
}

/// Answers per second; zero in no time.
pub open spec fn rate_of(answers: nat, elapsed: Duration) -> binary64::Value {
    if binary64::Value::of(0).less(elapsed.secs_value()) {
        workload::rate(answers, elapsed)
    } else {
        binary64::Value::of(0)
    }
}

/// The result of an exchange that took a span of time.
pub fn summarize(x: &Exchange, elapsed: Duration) -> (r: Run)
    ensures
        r.requests == x.requests,
        r.payload == x.payload,
        r.elapsed == elapsed,
        stats::percentiles_of(good_of(x.answers@), r.latency),
        r.rate@ == rate_of(good_of(x.answers@).len(), elapsed),
        r.failures == all_failures(*x),
{
    let samples: Vec<u128> = good(&x.answers);
    proof {
        lemma_good_len(x.answers@);
    }
    let bad: usize = x.answers.len() - samples.len();
    let secs: Binary64 = elapsed.as_secs_number();
    let rate: Binary64 = if Binary64::of(0).less(secs) {
        Binary64::of(samples.len() as u128).over(secs)
    } else {
        Binary64::of(0)
    };
    let abandoned: u128 = if x.gave_up {
        x.requests as u128
    } else {
        0
    };
    Run {
        requests: x.requests,
        payload: x.payload,
        elapsed,
        latency: stats::percentiles(samples),
        rate,
        failures: x.failures as u128 + bad as u128 + abandoned,
    }
}

impl Run {
    /// Whether the transport finished within the budget and without failures.
    pub open spec fn clean(self, budget: Duration) -> bool {
        self.failures == 0 && self.elapsed.nanos <= budget.nanos
    }

    /// Whether the transport finished within the budget and without failures.
    pub fn is_clean(&self, budget: Duration) -> (r: bool)
        ensures
            r == self.clean(budget),
    {
        self.failures == 0 && self.elapsed.nanos <= budget.nanos
    }
}

/// Whether both transports finished within the budget and without failures.
pub fn passed(cfg: &Config, tcp: &Run, quic: &Run) -> (r: bool)
    ensures
        r == (tcp.clean(cfg.budget) && quic.clean(cfg.budget)),
{
    tcp.is_clean(cfg.budget) && quic.is_clean(cfg.budget)
}

/// Every request of an exchange that has come to its end is reported, as a
/// sample or as a failure.
pub proof fn law_every_request_is_reported(x: Exchange)
    requires
        x.in_order(),
        !x.waiting,
        x.begun == x.requests || x.gave_up,
    ensures
        good_of(x.answers@).len() + all_failures(x) >= x.requests,
{
    lemma_good_len(x.answers@);
}

/// An exchange without failures that has come to its end has a sample for
/// each of its requests.
pub proof fn law_no_failures_means_all_requests(x: Exchange)
    requires
        x.in_order(),
        all_failures(x) == 0,
        !x.waiting,
        x.begun == x.requests || x.gave_up,
    ensures
        x.begun == x.requests,
        good_of(x.answers@).len() == x.requests,
{
    lemma_good_len(x.answers@);
}

/// The samples of two rows of answers are those of the one and then those of
/// the other.
pub proof fn law_samples_are_independent(a: Seq<Option<u128>>, b: Seq<Option<u128>>)
    ensures
        good_of(a + b) == good_of(a) + good_of(b),
        bad_of(a + b) == bad_of(a) + bad_of(b),
    decreases b.len(),
{
    lemma_good_len(a);
    lemma_good_len(b);
    if b.len() == 0 {
        assert(a + b =~= a);
        assert(good_of(a) + good_of(b) =~= good_of(a));
    } else {
        law_samples_are_independent(a, b.drop_last());
        assert((a + b).drop_last() =~= a + b.drop_last());
        assert((a + b).last() == b.last());
        assert(good_of(a + b) =~= good_of(a) + good_of(b));
    }
}

/// An answer of the right length is a sample with its latency, and one of the
/// wrong length is a failure and no sample.
pub proof fn law_an_answer_is_a_sample_or_a_failure(latency: u128)
    ensures
        good_of(seq![Some(latency)]) == seq![latency],
        bad_of(seq![Some(latency)]) == 0,
        good_of(seq![None]) == Seq::<u128>::empty(),
        bad_of(seq![None]) == 1,
        good_of(Seq::empty()) == Seq::<u128>::empty(),
{
    reveal_with_fuel(good_of, 2);
    assert(seq![Some(latency)].drop_last() =~= Seq::empty());
    assert(seq![None::<u128>].drop_last() =~= Seq::empty());
    assert(good_of(seq![Some(latency)]) =~= seq![latency]);
}

/// The failures are those of the requests, one for each answer of the wrong
/// length, and as many as there are requests where the budget ran out.
pub proof fn law_failures_add_up(x: Exchange)
    ensures
        !x.gave_up ==> all_failures(x) == x.failures + x.answers@.len() - good_of(x.answers@).len(),
        x.gave_up ==> all_failures(x) == x.failures + x.answers@.len() - good_of(x.answers@).len()
            + x.requests,
{
    lemma_good_len(x.answers@);
}

/// In whole seconds the rate is the number nearest to the answers over the
/// seconds, and no time makes no rate.
pub proof fn law_rate_is_answers_per_second(answers: nat, elapsed: Duration, secs: nat)
    requires
        elapsed.nanos == secs * time::NANOS_PER_SEC,
        secs <= rounding::SIGNIFICAND_LIMIT,
        answers <= rounding::SIGNIFICAND_LIMIT,
    ensures
        secs > 0 ==> rate_of(answers, elapsed) == binary64::Value::ratio(answers, secs),
        secs == 0 ==> rate_of(answers, elapsed) == binary64::Value::of(0),
{
    time::law_whole_seconds_are_exact(elapsed, secs);
    binary64::law_whole_numbers_keep_order(0, secs);
    if secs > 0 {
        workload::law_rate_is_count_over_seconds(answers, elapsed, secs);
    }
}

/// A transport is clean exactly where nothing failed and its time does not
/// exceed the budget.
pub proof fn law_clean_means_no_failure_in_time(r: Run, budget: Duration)
    ensures
        r.clean(budget) <==> r.failures == 0 && r.elapsed.nanos <= budget.nanos,
{
}

/// The rate times the time gives back the answers, to within a few millionths.
pub proof fn law_rate_times_time_is_the_answers(answers: nat, elapsed: Duration)
    requires
        0 < elapsed.nanos < 0x80_0000 * time::NANOS_PER_SEC,
        0 < answers <= rounding::SIGNIFICAND_LIMIT,
    ensures
        rate_of(answers, elapsed) matches binary64::Value::Finite { negative, magnitude } && !negative
            && {
            let exact = (answers * binary64::unit()) * time::NANOS_PER_SEC;
            &&& 999_998 * exact <= 1_000_000 * (magnitude * elapsed.nanos)
            &&& 1_000_000 * (magnitude * elapsed.nanos) <= 1_000_002 * exact
        },
{
    time::lemma_secs_positive(elapsed);
    workload::law_rate_times_time_is_the_count(answers, elapsed);
}

/// A run passes exactly where both transports answered every request rightly
/// and took no longer than the budget.
pub proof fn law_verdict_weighs_both_transports(cfg: Config, tcp: Run, quic: Run, r: bool)
    requires
        call_ensures(passed, (&cfg, &tcp, &quic), r),
    ensures
        r <==> tcp.failures == 0 && quic.failures == 0 && tcp.elapsed.nanos <= cfg.budget.nanos
            && quic.elapsed.nanos <= cfg.budget.nanos,
{
}

/// The result of an exchange reports a failure for each request without a
/// sample, and the percentiles of the samples.
pub proof fn law_result_reports_the_exchange(
    x: Exchange,
    elapsed: Duration,
    sorted: Seq<u128>,
    r: Run,
)
    requires
        call_ensures(summarize, (&x, elapsed), r),
        x.in_order(),
        !x.waiting,
        x.begun == x.requests || x.gave_up,
        0 < sorted.len() <= 0x2000_0000_0000,
        forall|i: int, j: int| 0 <= i <= j < sorted.len() ==> sorted[i] <= sorted[j],
        sorted.to_multiset() == good_of(x.answers@).to_multiset(),
    ensures
        r.latency.count + r.failures >= x.requests,
        r.failures == 0 ==> r.latency.count == x.requests,
        r.latency.count == sorted.len(),
        r.latency.p50 == sorted[((sorted.len() - 1) * 50 + 50) / 100],
        r.latency.p95 == sorted[((sorted.len() - 1) * 95 + 50) / 100],
        r.latency.p99 == sorted[((sorted.len() - 1) * 99 + 50) / 100],
        r.elapsed == elapsed,
{
    let samples = good_of(x.answers@);
    samples.to_multiset_ensures();
    sorted.to_multiset_ensures();
    stats::law_percentiles_are_the_samples_at_their_rank(samples, sorted, r.latency);
    law_every_request_is_reported(x);
    if r.failures == 0 {
        law_no_failures_means_all_requests(x);
    }
}

/// An answer is timed from the begin of its request, where it has the length of
/// the request; one of another length is no sample, and a message that nobody
/// waits for is nothing.
pub proof fn law_answers_are_timed_from_their_request(
    x: &mut Exchange,
    data: Bytes,
    now: u128,
    r: bool,
)
    requires
        call_ensures(Exchange::on_message, (x, &data, now), r),
        x.in_flight matches Some(sent) ==> sent <= now,
    ensures
        r <==> old(x).in_flight is Some,
        final(x).in_flight is None,
        old(x).in_flight is None ==> final(x).answers@ == old(x).answers@,
        old(x).in_flight matches Some(sent) ==> final(x).answers@.drop_last() == old(x).answers@
            && final(x).answers@.last() == (if wire::contents(data).len() == old(x).payload {
            Some((now - sent) as u128)
        } else {
            None
        }),
{
    if x.in_flight is Some {
        assert(final(x).answers@.drop_last() =~= old(x).answers@);
    }
}

/// A request begins as long as there is one left and the budget has not passed;
/// it is then in flight since now. A run that gives up stays so.
pub proof fn law_requests_begin_within_the_budget(
    x: &mut Exchange,
    started: u128,
    now: u128,
    budget: Duration,
    r: bool,
)
    requires
        call_ensures(Exchange::begin, (x, started, now, budget), r),
        started <= now,
    ensures
        r <==> !old(x).gave_up && old(x).begun < old(x).requests && now - started <= budget.nanos,
        r ==> final(x).in_flight == Some(now) && final(x).waiting && final(x).begun == old(x).begun
            + 1,
        !r && old(x).begun < old(x).requests ==> final(x).gave_up,
        final(x).failures == old(x).failures && final(x).answers@ == old(x).answers@,
{
}

/// A request that could not be sent or was not answered is a failure, and one
/// that was answered is none.
pub proof fn law_unanswered_requests_fail(x: &mut Exchange, outcome: Outcome)
    requires
        call_ensures(Exchange::end, (x, outcome), ()),
    ensures
        outcome is Answered ==> final(x).failures == old(x).failures,
        !(outcome is Answered) ==> final(x).failures == old(x).failures + 1,
        !final(x).waiting && final(x).in_flight is None,
        final(x).answers@ == old(x).answers@,
{
}

} // verus!
