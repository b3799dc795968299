//! A paced workload: a fixed number of messages, one per period, watched in
//! windows.

use vstd::arithmetic::power2::*;
use vstd::prelude::*;

use crate::binary64;
use crate::binary64::Binary64;
use crate::rounding;
use crate::time;
use crate::time::Duration;

verus! {

/// How many messages fit in a run, one per period of at least a millisecond.
pub open spec fn iterations(secs: nat, period: Duration) -> nat {
    let period_ms = (period.nanos / time::NANOS_PER_MILLI) as nat;
    ((secs * 1000) / (if period_ms > 1 {
        period_ms
    } else {
        1
    })) % (usize::MAX as nat + 1)
}

/// How many messages fit in a run.
pub fn total_iterations(secs: u64, period: Duration) -> (r: usize)
    ensures
        r == iterations(secs as nat, period),
{
    let period_ms: u128 = period.as_millis();
    let millis: u128 = secs as u128 * 1000;
    let n: u128 = millis / (if period_ms > 1 {
        period_ms
    } else {
        1
    });
    (n % (usize::MAX as u128 + 1)) as usize
}

/// A window that was closed.
#[derive(Clone, Copy, PartialEq, Eq, Structural, Debug)]
pub struct Window {
    pub sent: usize,
    pub acked: usize,
    /// Messages without an answer so far.
    pub loss: usize,
    /// Answers per second in the window.
    pub throughput: Binary64,
}

/// Messages without an answer.
pub open spec fn unanswered(sent: nat, acked: nat) -> nat {
    if sent > acked {
        (sent - acked) as nat
    } else {
        0
    }
}

/// Messages without an answer.
pub fn loss(sent: usize, acked: usize) -> (r: usize)
    ensures
        r == unanswered(sent as nat, acked as nat),
{
    if sent > acked {
        sent - acked
    } else {
        0
    }
}

/// Answers per second.
pub open spec fn rate(count: nat, span: Duration) -> binary64::Value {
    binary64::Value::of(count).over(span.secs_value())
}

/// The state of a paced workload.
#[derive(Clone, Copy, PartialEq, Eq, Structural, Debug)]
pub struct Paced {
    /// How many messages are to be sent.
    pub total: usize,
    /// How many messages were sent.
    pub sent: usize,
    /// Whether sending failed, which ends the workload.
    pub failed: bool,
    /// How long a window is.
    pub window: Duration,
    pub window_start: u128,
    pub window_acked: usize,
}

impl Paced {
    /// Whether no more was sent than was to be sent.
    pub open spec fn in_bounds(self) -> bool {
        self.sent <= self.total
    }

    /// A workload that starts now.
    pub fn new(total: usize, window: Duration, now: u128) -> (r: Paced)
        ensures
            r == (Paced {
                total,
                sent: 0,
                failed: false,
                window,
                window_start: now,
                window_acked: 0,
            }),
            r.in_bounds(),
    {
        Paced { total, sent: 0, failed: false, window, window_start: now, window_acked: 0 }
    }

    pub open spec fn due(self) -> bool {
        !self.failed && self.sent < self.total
    }

    /// Whether there is a message to send.
    pub fn is_due(&self) -> (r: bool)
        ensures
            r == self.due(),
    {
        !self.failed && self.sent < self.total
    }

    /// Takes the outcome of a send.
    pub fn on_send(&mut self, ok: bool)
        requires
            old(self).due(),
        ensures
            ok ==> *final(self) == (Paced { sent: (old(self).sent + 1) as usize, ..*old(self) }),
            !ok ==> *final(self) == (Paced { failed: true, ..*old(self) }),
            final(self).in_bounds(),
    {
        if ok {
            self.sent = self.sent + 1;
        } else {
            self.failed = true;
        }
    }

    pub open spec fn over(self, now: u128) -> bool {
        time::between(self.window_start as nat, now as nat) >= self.window.nanos
    }

    /// Whether the window is over.
    pub fn is_window_over(&self, now: u128) -> (r: bool)
        ensures
            r == self.over(now),
    {
        time::elapsed(self.window_start, now).nanos >= self.window.nanos
    }

    /// Closes the window, with the answers that have arrived, and opens the
    /// next.
    pub fn close_window(&mut self, now: u128, acked: usize) -> (r: Window)
        ensures
            *final(self) == (Paced { window_start: now, window_acked: acked, ..*old(self) }),
            r.sent == old(self).sent,
            r.acked == acked,
            r.loss == unanswered(old(self).sent as nat, acked as nat),
            r.throughput@ == rate(
                acked.wrapping_sub(old(self).window_acked) as nat,
                (Duration {
                    nanos: time::between(old(self).window_start as nat, now as nat) as u128,
                }),
            ),
    {
        let span: Duration = time::elapsed(self.window_start, now);
        let delta: usize = acked.wrapping_sub(self.window_acked);
        let throughput: Binary64 = Binary64::of(delta as u128).over(span.as_secs_number());
        self.window_start = now;
        self.window_acked = acked;
        Window { sent: self.sent, acked, loss: loss(self.sent, acked), throughput }
    }
}

/// A workload in which nothing fails and nothing is due any more has sent all
/// that was to be sent.
pub proof fn law_finished_workload_sent_all(p: Paced)
    requires
        p.in_bounds(),
        !p.due(),
        !p.failed,
    ensures
        p.sent == p.total,
{
}

/// The messages of a run fill its time, one period each, and one more would
/// not fit.
pub proof fn law_iterations_fill_the_run(secs: nat, period: Duration)
    requires
        period.nanos >= time::NANOS_PER_MILLI,
        secs * 1000 <= usize::MAX,
    ensures
        ({
            let period_ms = (period.nanos / time::NANOS_PER_MILLI) as nat;
            let n = iterations(secs, period);
            n * period_ms <= secs * 1000 < (n + 1) * period_ms
        }),
{
    let period_ms = (period.nanos / time::NANOS_PER_MILLI) as nat;
    let q = (secs * 1000) / period_ms;
    vstd::arithmetic::div_mod::lemma_fundamental_div_mod((secs * 1000) as int, period_ms as int);
    assert(q <= secs * 1000) by (nonlinear_arith)
        requires
            period_ms >= 1,
            period_ms * q <= secs * 1000,
            q >= 0,
    ;
    vstd::arithmetic::div_mod::lemma_small_mod(q, (usize::MAX as nat + 1) as nat);
    assert(q * period_ms == period_ms * q) by (nonlinear_arith);
    assert((q + 1) * period_ms == period_ms * q + period_ms) by (nonlinear_arith);
}

/// What is unanswered, together with the answers, makes up what was sent; more
/// answers than messages leave nothing unanswered.
pub proof fn law_unanswered_is_the_rest(sent: nat, acked: nat)
    ensures
        acked <= sent ==> acked + unanswered(sent, acked) == sent,
        acked >= sent ==> unanswered(sent, acked) == 0,
{
}

/// A period below a millisecond counts as one.
pub proof fn law_short_periods_count_as_a_millisecond(secs: nat, period: Duration)
    requires
        period.nanos < time::NANOS_PER_MILLI,
        secs * 1000 <= usize::MAX,
    ensures
        iterations(secs, period) == secs * 1000,
{
    assert(period.nanos / time::NANOS_PER_MILLI == 0);
    assert((secs * 1000) / 1 == secs * 1000);
    vstd::arithmetic::div_mod::lemma_small_mod(secs * 1000, (usize::MAX as nat + 1) as nat);
}

/// In whole seconds a rate is the number nearest to the count over the seconds.
pub proof fn law_rate_is_count_over_seconds(count: nat, span: Duration, secs: nat)
    requires
        span.nanos == secs * time::NANOS_PER_SEC,
        0 < secs <= rounding::SIGNIFICAND_LIMIT,
        count <= rounding::SIGNIFICAND_LIMIT,
    ensures
        rate(count, span) == binary64::Value::ratio(count, secs),
{
    time::law_whole_seconds_are_exact(span, secs);
    binary64::law_quotient_is_nearest(count, secs);
}

/// A message is due exactly as long as nothing failed and not all are sent; a
/// window is over once its length has passed since it began.
pub proof fn law_workload_goes_on_until_all_is_sent(p: Paced, now: u128)
    ensures
        p.due() <==> !p.failed && p.sent < p.total,
        p.window_start <= now ==> (p.over(now) <==> now - p.window_start >= p.window.nanos),
        p.window_start > now ==> (p.over(now) <==> p.window.nanos == 0),
{
}

/// A rate times the time gives back the count, to within a few millionths.
pub proof fn law_rate_times_time_is_the_count(count: nat, span: Duration)
    requires
        0 < span.nanos < 0x80_0000 * time::NANOS_PER_SEC,
        0 < count <= rounding::SIGNIFICAND_LIMIT,
    ensures
        rate(count, span) matches binary64::Value::Finite { negative, magnitude } && !negative && {
            let exact = (count * binary64::unit()) * time::NANOS_PER_SEC;
            &&& 999_998 * exact <= 1_000_000 * (magnitude * span.nanos)
            &&& 1_000_000 * (magnitude * span.nanos) <= 1_000_002 * exact
        },
{
    let u = binary64::unit();
    binary64::lemma_of_exact(count);
    lemma_pow2_pos(1054);
    lemma_pow2_adds(20, 1054);
    lemma2_to64();
    assert(pow2(1054) <= count * u <= rounding::SIGNIFICAND_LIMIT * u) by (nonlinear_arith)
        requires
            1 <= count <= rounding::SIGNIFICAND_LIMIT,
            u == 0x10_0000 * pow2(1054),
            pow2(1054) > 0,
    ;
    lemma_pow2_strictly_increases(1040, 1054);
    time::lemma_over_seconds_closely(count * u, span);
}

/// The messages that are computed for a run fill its time, one period each, and
/// one more would not fit.
pub proof fn law_computed_iterations_fill_the_run(secs: u64, period: Duration, r: usize)
    requires
        call_ensures(total_iterations, (secs, period), r),
        period.nanos >= time::NANOS_PER_MILLI,
        secs * 1000 <= usize::MAX,
    ensures
        ({
            let period_ms = (period.nanos / time::NANOS_PER_MILLI) as nat;
            r * period_ms <= secs * 1000 < (r + 1) * period_ms
        }),
{
    law_iterations_fill_the_run(secs as nat, period);
}

/// A send that succeeds counts, and one that fails ends the workload; a closed
/// window reports the answers since the last one.
pub proof fn law_sends_and_windows_are_counted(
    sending: &mut Paced,
    ok: bool,
    closing: &mut Paced,
    now: u128,
    acked: usize,
    w: Window,
)
    requires
        call_ensures(Paced::on_send, (sending, ok), ()),
        sending.due(),
        call_ensures(Paced::close_window, (closing, now, acked), w),
        closing.window_acked <= acked,
        closing.window_start <= now,
    ensures
        ok ==> final(sending).sent == old(sending).sent + 1 && !final(sending).failed,
        !ok ==> final(sending).sent == old(sending).sent && final(sending).failed,
        w.sent == old(closing).sent && w.acked == acked,
        acked <= w.sent ==> w.loss + acked == w.sent,
        w.throughput@ == rate(
            (acked - old(closing).window_acked) as nat,
            (Duration { nanos: (now - old(closing).window_start) as u128 }),
        ),
        final(closing).window_start == now && final(closing).window_acked == acked,
{
    law_unanswered_is_the_rest(closing.sent as nat, acked as nat);
}

} // verus!
