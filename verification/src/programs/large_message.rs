//! Large messages over TCP and over QUIC: both have to move all of them
//! within a budget, and QUIC may have to keep up with TCP.

use bytes::Bytes;
use vstd::arithmetic::power2::*;
use vstd::prelude::*;

use crate::binary64;
use crate::binary64::Binary64;
use crate::env;
use crate::env::Environment;
use crate::resources::MIB;
use crate::rounding;
use crate::session;
use crate::session::Wait;
use crate::time;
use crate::time::Duration;
use crate::wire;

verus! {

/// What a message is filled with.
pub const PAYLOAD_BYTE: u8 = 0xAB;

/// The settings of a run.
#[derive(Clone, Copy, PartialEq, Eq, Structural, Debug)]
pub struct Config {
    /// Mebibytes in a message.
    pub size_mib: usize,
    /// Messages per transport.
    pub count: usize,
    /// The budget of each transport.
    pub budget: Duration,
    /// How many times the time of TCP the time of QUIC may be; zero for no
    /// limit.
    pub ratio_max: Binary64,
}

impl Config {
    /// The settings that an environment asks for.
    pub fn from_env(e: &Environment) -> (r: Config)
        ensures
            r.size_mib == env::asked_whole(e, "QA_LM_SIZE_MIB"@, usize::MAX as nat, 2),
            r.count == env::asked_whole(e, "QA_LM_COUNT"@, usize::MAX as nat, 16),
            r.budget.nanos == env::asked_whole(e, "QA_LM_TIMEOUT_S"@, u64::MAX as nat, 60)
                * time::NANOS_PER_SEC,
            match e.number_of("QA_LM_RATIO_MAX"@) {
                Some(n) => r.ratio_max == n,
                None => r.ratio_max@ == binary64::Value::of(0),
            },
    {
        let size_mib: usize = env::env_or(e, "QA_LM_SIZE_MIB", 2usize);
        let count: usize = env::env_or(e, "QA_LM_COUNT", 16usize);
        Config {
            size_mib,
            count,
            budget: env::duration_secs(e, "QA_LM_TIMEOUT_S", 60),
            ratio_max: env::env_number_or(e, "QA_LM_RATIO_MAX", Binary64::of(0)),
        }
    }

    /// Whether a message fits in memory.
    pub open spec fn in_range(self) -> bool {
        self.size_mib * MIB <= isize::MAX
    }

    /// Whether a message fits in memory.
    pub fn is_in_range(&self) -> (r: bool)
        ensures
            r == self.in_range(),
    {
        proof {
            assert(self.size_mib * MIB <= u128::MAX) by (nonlinear_arith)
                requires
                    self.size_mib <= u64::MAX,
                    MIB <= u64::MAX,
            ;
        }
        self.size_mib as u128 * MIB as u128 <= isize::MAX as u128
    }

    /// Bytes in a message.
    pub fn bytes_each(&self) -> (r: usize)
        requires
            self.in_range(),
        ensures
            r == self.size_mib * MIB,
    {
        self.size_mib * MIB
    }

    /// The message that a run sends over and over.
    pub fn payload(&self) -> (r: Bytes)
        requires
            self.in_range(),
        ensures
            wire::contents(r) == Seq::new((self.size_mib * MIB) as nat, |i: int| PAYLOAD_BYTE),
    {
        wire::filler(PAYLOAD_BYTE, self.bytes_each())
    }
}

/// One transport moving its messages.
#[derive(Clone, Copy, PartialEq, Eq, Structural, Debug)]
pub struct Transfer {
    /// How many messages are to be moved.
    pub count: usize,
    /// How many messages were handed over, or could not be.
    pub tried: usize,
    /// How many messages could not be handed over.
    pub refused: usize,
    pub acked_msgs: usize,
    pub acked_bytes: usize,
}

impl Transfer {
    /// Whether no more was tried than was to be moved.
    pub open spec fn in_bounds(self) -> bool {
        self.refused <= self.tried <= self.count
    }

    pub fn new(count: usize) -> (r: Transfer)
        ensures
            r == (Transfer { count, tried: 0, refused: 0, acked_msgs: 0, acked_bytes: 0 }),
            r.in_bounds(),
    {
        Transfer { count, tried: 0, refused: 0, acked_msgs: 0, acked_bytes: 0 }
    }

    /// Whether there is a message to send.
    pub fn is_due(&self) -> (r: bool)
        ensures
            r == (self.tried < self.count),
    {
        self.tried < self.count
    }

    /// Takes the outcome of a send.
    pub fn on_send(&mut self, ok: bool)
        requires
            old(self).in_bounds(),
            old(self).tried < old(self).count,
        ensures
            final(self).in_bounds(),
            *final(self) == (Transfer {
                tried: (old(self).tried + 1) as usize,
                refused: if ok {
                    old(self).refused
                } else {
                    (old(self).refused + 1) as usize
                },
                ..*old(self)
            }),
    {
        self.tried = self.tried + 1;
        if !ok {
            self.refused = self.refused + 1;
        }
    }

    /// Takes a message that came back. Says whether all of them are back.
    pub fn on_message(&mut self, data: &Bytes) -> (r: bool)
        ensures
            *final(self) == (Transfer {
                acked_msgs: old(self).acked_msgs.wrapping_add(1),
                acked_bytes: old(self).acked_bytes.wrapping_add(
                    wire::contents(*data).len() as usize,
                ),
                ..*old(self)
            }),
            r == final(self).complete(),
    {
        self.acked_bytes = self.acked_bytes.wrapping_add(wire::message_len(data));
        self.acked_msgs = self.acked_msgs.wrapping_add(1);
        self.acked_msgs >= self.count
    }

    /// Whether all messages are back.
    pub open spec fn complete(self) -> bool {
        self.acked_msgs >= self.count
    }

    /// How the wait for the messages goes on that began when the last one was
    /// handed over.
    pub fn poll(&self, waiting_since: u128, now: u128, budget: Duration) -> (r: Wait)
        ensures
            r == session::wait_state(self.complete(), waiting_since, now, budget),
    {
        session::poll(self.acked_msgs >= self.count, waiting_since, now, budget)
    }

    /// The failures: messages that could not be handed over, and those that
    /// are not back when the wait is given up.
    pub open spec fn all_failures(self, timed_out: bool) -> nat {
        self.refused as nat + if timed_out && self.acked_msgs < self.count {
            (self.count - self.acked_msgs) as nat
        } else {
            0
        }
    }
}

/// The result of one transport.
#[derive(Clone, Copy, PartialEq, Eq, Structural, Debug)]
pub struct RunResult {
    pub count: usize,
    pub bytes_each: usize,
    pub elapsed: Duration,
    pub failures: u128,
    /// Mebibytes per second.
    pub goodput: Binary64,
}

/// Mebibytes per second.
pub open spec fn goodput_value(bytes: nat, elapsed: Duration) -> binary64::Value {
    binary64::Value::of(bytes).over(elapsed.secs_value()).over(binary64::Value::of(MIB as nat))
}

/// The result of a transfer that took a span of time.
pub fn summarize(x: &Transfer, bytes_each: usize, elapsed: Duration, timed_out: bool) -> (r:
    RunResult)
    ensures
        r.count == x.count,
        r.bytes_each == bytes_each,
        r.elapsed == elapsed,
        r.failures == x.all_failures(timed_out),
        r.goodput@ == goodput_value((x.count * bytes_each) as nat, elapsed),
{
    let unanswered: u128 = if timed_out && x.acked_msgs < x.count {
        (x.count - x.acked_msgs) as u128
    } else {
        0
    };
    assert(x.count * bytes_each <= u128::MAX) by (nonlinear_arith)
        requires
            x.count <= u64::MAX,
            bytes_each <= u64::MAX,
    ;
    let bytes: u128 = x.count as u128 * bytes_each as u128;
    RunResult {
        count: x.count,
        bytes_each,
        elapsed,
        failures: x.refused as u128 + unanswered,
        goodput: Binary64::of(bytes).over(elapsed.as_secs_number()).over(
            Binary64::of(MIB as u128),
        ),
    }
}

impl RunResult {
    /// Whether all messages were moved within the budget.
    pub open spec fn clean(self, budget: Duration) -> bool {
        self.failures == 0 && self.elapsed.nanos <= budget.nanos
    }

    /// Whether all messages were moved within the budget.
    pub fn is_clean(&self, budget: Duration) -> (r: bool)
        ensures
            r == self.clean(budget),
    {
        self.failures == 0 && self.elapsed.nanos <= budget.nanos
    }
}

/// How many times the time of TCP the time of QUIC is; zero where TCP took no
/// time.
pub open spec fn time_ratio_value(tcp: Duration, quic: Duration) -> binary64::Value {
    if binary64::Value::of(0).less(tcp.secs_value()) {
        quic.secs_value().over(tcp.secs_value())
    } else {
        binary64::Value::of(0)
    }
}

/// How many times the time of TCP the time of QUIC is.
pub fn time_ratio(tcp: Duration, quic: Duration) -> (r: Binary64)
    ensures
        r@ == time_ratio_value(tcp, quic),
{
    let base: Binary64 = tcp.as_secs_number();
    if Binary64::of(0).less(base) {
        quic.as_secs_number().over(base)
    } else {
        Binary64::of(0)
    }
}

/// Whether QUIC kept up with TCP: where TCP took no time, QUIC may take none
/// either.
pub open spec fn parity(ratio_max: binary64::Value, tcp: Duration, quic: Duration) -> bool {
    binary64::Value::of(0).less(ratio_max) ==> if binary64::Value::of(0).less(tcp.secs_value()) {
        !ratio_max.less(time_ratio_value(tcp, quic))
    } else {
        !binary64::Value::of(0).less(quic.secs_value())
    }
}

/// The outcome of a run.
#[derive(Clone, Copy, PartialEq, Eq, Structural, Debug)]
pub struct Verdict {
    pub tcp_clean: bool,
    pub quic_clean: bool,
    pub parity: bool,
}

impl Verdict {
    pub open spec fn is_pass(self) -> bool {
        self.tcp_clean && self.quic_clean && self.parity
    }

    /// Whether the run passed.
    pub fn passed(self) -> (r: bool)
        ensures
            r == self.is_pass(),
    {
        self.tcp_clean && self.quic_clean && self.parity
    }
}

/// Judges a run.
pub fn judge(cfg: &Config, tcp: &RunResult, quic: &RunResult) -> (r: Verdict)
    ensures
        r.tcp_clean == tcp.clean(cfg.budget),
        r.quic_clean == quic.clean(cfg.budget),
        r.parity == parity(cfg.ratio_max@, tcp.elapsed, quic.elapsed),
{
    let zero: Binary64 = Binary64::of(0);
    let kept: bool = if zero.less(cfg.ratio_max) {
        if zero.less(tcp.elapsed.as_secs_number()) {
            !cfg.ratio_max.less(time_ratio(tcp.elapsed, quic.elapsed))
        } else {
            !zero.less(quic.elapsed.as_secs_number())
        }
    } else {
        true
    };
    Verdict {
        tcp_clean: tcp.is_clean(cfg.budget),
        quic_clean: quic.is_clean(cfg.budget),
        parity: kept,
    }
}

/// A transfer without failures whose wait has ended has all its messages
/// back.
pub proof fn law_no_failures_means_all_back(
    x: Transfer,
    waiting_since: u128,
    now: u128,
    budget: Duration,
)
    requires
        session::wait_state(x.complete(), waiting_since, now, budget) !is Again,
        x.all_failures(
            session::wait_state(x.complete(), waiting_since, now, budget) is TimedOut,
        ) == 0,
    ensures
        x.complete(),
        x.refused == 0,
{
}

/// Two transports that take the same time are at a ratio of one, and keep every
/// parity of at least one.
pub proof fn law_same_time_keeps_parity(ratio_max: binary64::Value, elapsed: Duration)
    requires
        !ratio_max.less(binary64::Value::of(1)),
    ensures
        binary64::Value::of(0).less(elapsed.secs_value()) ==> time_ratio_value(elapsed, elapsed)
            == binary64::Value::of(1),
        parity(ratio_max, elapsed, elapsed),
{
    binary64::lemma_of_exact(0);
    time::lemma_secs_finite(elapsed);
    if binary64::Value::of(0).less(elapsed.secs_value()) {
        binary64::lemma_finite_over_itself(elapsed.secs_value());
    }
}

/// The order of quotients of numbers that are not negative.
proof fn lemma_quotients(a: nat, b: nat, c: nat, d: nat)
    requires
        b > 0,
        d > 0,
        a * d <= c * b,
    ensures
        ({
            let x = binary64::Value::Finite { negative: false, magnitude: a };
            let y = binary64::Value::Finite { negative: false, magnitude: b };
            let v = binary64::Value::Finite { negative: false, magnitude: c };
            let w = binary64::Value::Finite { negative: false, magnitude: d };
            !v.over(w).less(x.over(y))
        }),
{
    let u = binary64::unit();
    assert((a * u) * d <= (c * u) * b) by (nonlinear_arith)
        requires
            a * d <= c * b,
    ;
    rounding::lemma_round_monotone(a * u, b, c * u, d);
}

/// The ratio is the time of QUIC over that of TCP, whichever is longer: at
/// most one where QUIC took no longer than TCP, and at least one where it took
/// no less.
pub proof fn law_ratio_is_quic_over_tcp(tcp: Duration, quic: Duration)
    requires
        0 < tcp.nanos <= rounding::SIGNIFICAND_LIMIT * time::NANOS_PER_SEC,
        quic.nanos <= rounding::SIGNIFICAND_LIMIT * time::NANOS_PER_SEC,
    ensures
        quic.nanos <= tcp.nanos ==> !binary64::Value::of(1).less(time_ratio_value(tcp, quic)),
        quic.nanos >= tcp.nanos ==> !time_ratio_value(tcp, quic).less(binary64::Value::of(1)),
        quic.nanos == 0 ==> time_ratio_value(tcp, quic) == binary64::Value::of(0),
{
    time::lemma_secs_positive(tcp);
    time::lemma_secs_finite(quic);
    binary64::lemma_finite_over_itself(tcp.secs_value());
    let t = tcp.secs_value()->Finite_magnitude;
    let q = quic.secs_value()->Finite_magnitude;
    if quic.nanos <= tcp.nanos {
        time::law_longer_spans_are_no_fewer_seconds(quic, tcp);
        assert(q * t <= t * t) by (nonlinear_arith)
            requires
                q <= t,
        ;
        lemma_quotients(q, t, t, t);
    }
    if quic.nanos >= tcp.nanos {
        time::law_longer_spans_are_no_fewer_seconds(tcp, quic);
        assert(t * t <= q * t) by (nonlinear_arith)
            requires
                t <= q,
        ;
        lemma_quotients(t, t, q, t);
    }
    if quic.nanos == 0 {
        time::law_whole_seconds_are_exact(quic, 0);
        binary64::lemma_of_exact(0);
        assert(0 * binary64::unit() == 0);
        assert(0 * t == 0) by (nonlinear_arith);
        rounding::lemma_round_same_value(0, t, 0, 1);
    }
}

/// The ratio does not fall where QUIC takes longer, and does not rise where
/// TCP does.
pub proof fn law_ratio_grows_with_quic(
    tcp: Duration,
    slower_tcp: Duration,
    quic: Duration,
    slower_quic: Duration,
)
    requires
        0 < tcp.nanos <= slower_tcp.nanos <= rounding::SIGNIFICAND_LIMIT * time::NANOS_PER_SEC,
        quic.nanos <= slower_quic.nanos <= rounding::SIGNIFICAND_LIMIT * time::NANOS_PER_SEC,
    ensures
        !time_ratio_value(tcp, slower_quic).less(time_ratio_value(tcp, quic)),
        !time_ratio_value(tcp, quic).less(time_ratio_value(slower_tcp, quic)),
{
    time::lemma_secs_positive(tcp);
    time::lemma_secs_positive(slower_tcp);
    time::lemma_secs_finite(quic);
    time::lemma_secs_finite(slower_quic);
    time::law_longer_spans_are_no_fewer_seconds(tcp, slower_tcp);
    time::law_longer_spans_are_no_fewer_seconds(quic, slower_quic);
    let t = tcp.secs_value()->Finite_magnitude;
    let s = slower_tcp.secs_value()->Finite_magnitude;
    let q = quic.secs_value()->Finite_magnitude;
    let r = slower_quic.secs_value()->Finite_magnitude;
    assert(q * t <= r * t && q * t <= q * s) by (nonlinear_arith)
        requires
            q <= r,
            t <= s,
    ;
    lemma_quotients(q, t, r, t);
    lemma_quotients(q, s, q, t);
}

/// For whole seconds the ratio is the number nearest to those of QUIC over
/// those of TCP.
pub proof fn law_ratio_of_whole_seconds(tcp: Duration, quic: Duration, t: nat, q: nat)
    requires
        tcp.nanos == t * time::NANOS_PER_SEC,
        quic.nanos == q * time::NANOS_PER_SEC,
        0 < t <= rounding::SIGNIFICAND_LIMIT,
        q <= rounding::SIGNIFICAND_LIMIT,
    ensures
        time_ratio_value(tcp, quic) == binary64::Value::ratio(q, t),
{
    time::law_whole_seconds_are_exact(tcp, t);
    time::law_whole_seconds_are_exact(quic, q);
    binary64::law_whole_numbers_keep_order(0, t);
    binary64::law_quotient_is_nearest(q, t);
}

/// QUIC keeps every limit of at least one where it took no longer than TCP, it
/// keeps any limit that a slower QUIC keeps, and no limit of zero or less is
/// one.
pub proof fn law_faster_quic_keeps_parity(
    ratio_max: binary64::Value,
    tcp: Duration,
    quic: Duration,
    slower: Duration,
)
    requires
        tcp.nanos <= rounding::SIGNIFICAND_LIMIT * time::NANOS_PER_SEC,
        quic.nanos <= slower.nanos <= rounding::SIGNIFICAND_LIMIT * time::NANOS_PER_SEC,
    ensures
        quic.nanos <= tcp.nanos && !ratio_max.less(binary64::Value::of(1)) ==> parity(
            ratio_max,
            tcp,
            quic,
        ),
        parity(ratio_max, tcp, slower) ==> parity(ratio_max, tcp, quic),
        !binary64::Value::of(0).less(ratio_max) ==> parity(ratio_max, tcp, slower),
        binary64::Value::of(0).less(ratio_max) && tcp.nanos == 0 ==> (parity(ratio_max, tcp, quic)
            <==> quic.nanos == 0),
{
    binary64::lemma_of_exact(0);
    binary64::lemma_of_exact(1);
    lemma_pow2_pos(1074);
    time::lemma_secs_finite(tcp);
    time::lemma_secs_finite(quic);
    time::lemma_secs_finite(slower);
    time::law_longer_spans_are_no_fewer_seconds(quic, slower);
    if tcp.nanos > 0 {
        time::lemma_secs_positive(tcp);
        law_ratio_is_quic_over_tcp(tcp, quic);
        law_ratio_grows_with_quic(tcp, tcp, quic, slower);
        let ratio = time_ratio_value(tcp, quic);
        binary64::law_order_is_total(binary64::Value::of(1), ratio, ratio_max);
        binary64::law_order_is_total(ratio_max, ratio, time_ratio_value(tcp, slower));
    } else {
        time::law_whole_seconds_are_exact(tcp, 0);
        if quic.nanos > 0 {
            time::lemma_secs_positive(quic);
        } else {
            time::law_whole_seconds_are_exact(quic, 0);
        }
    }
}

/// In whole seconds, a whole limit is kept exactly where QUIC took no more than
/// that many times the time of TCP.
pub proof fn law_parity_is_a_limit_on_the_time(
    tcp: Duration,
    quic: Duration,
    t: nat,
    q: nat,
    limit: nat,
)
    requires
        tcp.nanos == t * time::NANOS_PER_SEC,
        quic.nanos == q * time::NANOS_PER_SEC,
        0 < t <= 0x10_0000,
        q <= rounding::SIGNIFICAND_LIMIT,
        0 < limit <= u32::MAX,
    ensures
        parity(binary64::Value::of(limit), tcp, quic) <==> q <= limit * t,
{
    law_ratio_of_whole_seconds(tcp, quic, t, q);
    time::law_whole_seconds_are_exact(tcp, t);
    binary64::law_whole_numbers_keep_order(0, t);
    binary64::law_whole_numbers_keep_order(0, limit);
    binary64::law_ratio_against_whole(q, t, limit);
}

/// In whole seconds the goodput is the bytes per second in mebibytes, to
/// within a byte per second.
pub proof fn law_goodput_is_mebibytes_per_second(bytes: nat, elapsed: Duration, secs: nat)
    requires
        elapsed.nanos == secs * time::NANOS_PER_SEC,
        0 < secs <= rounding::SIGNIFICAND_LIMIT,
        bytes < rounding::SIGNIFICAND_LIMIT,
    ensures
        goodput_value(bytes, elapsed) matches binary64::Value::Finite { negative, magnitude }
            && !negative && (bytes / secs) * pow2(1054) <= magnitude <= (bytes / secs + 1) * pow2(
            1054,
        ),
{
    let u = binary64::unit();
    let per = bytes / secs;
    time::law_whole_seconds_are_exact(elapsed, secs);
    binary64::law_quotient_is_nearest(bytes, secs);
    binary64::lemma_ratio_finite(bytes, secs);
    binary64::lemma_of_exact(MIB as nat);
    lemma_pow2_pos(1074);
    lemma_pow2_pos(1054);
    lemma_pow2_adds(20, 1054);
    lemma2_to64();
    let fine = pow2(1054);
    vstd::arithmetic::div_mod::lemma_fundamental_div_mod(bytes as int, secs as int);
    assert((per * u) * secs <= bytes * u && bytes * u <= ((per + 1) * u) * secs)
        by (nonlinear_arith)
        requires
            secs * per <= bytes,
            bytes <= secs * per + secs,
    ;
    vstd::arithmetic::div_mod::lemma_div_is_ordered_by_denominator(bytes as int, 1, secs as int);
    rounding::lemma_round_at_least(bytes * u, secs, per, 1074);
    rounding::lemma_round_at_most(bytes * u, secs, per + 1, 1074);
    let m = rounding::round_quotient(bytes * u, secs);
    let mib = MIB as nat;
    assert(mib * u > 0) by (nonlinear_arith)
        requires
            mib == 1048576,
            u > 0,
    ;
    assert((per * fine) * (mib * u) <= m * u && m * u <= ((per + 1) * fine) * (mib * u))
        by (nonlinear_arith)
        requires
            per * u <= m,
            m <= (per + 1) * u,
            u == 0x10_0000 * fine,
            mib == 0x10_0000,
    {
        assert((per * fine) * (mib * u) == (per * u) * u);
        assert(((per + 1) * fine) * (mib * u) == ((per + 1) * u) * u);
    }
    rounding::lemma_round_at_least(m * u, mib * u, per, 1054);
    rounding::lemma_round_at_most(m * u, mib * u, per + 1, 1054);
    lemma_pow2_adds(53, 1054);
    lemma2_to64_rest();
    lemma_pow2_strictly_increases(1107, 2098);
    assert((per + 1) * fine <= 0x20_0000_0000_0000 * fine) by (nonlinear_arith)
        requires
            per + 1 <= 0x20_0000_0000_0000,
    ;
}

/// The failures of a transfer are the messages that were refused, and, where
/// the wait was given up, those that are not back.
pub proof fn law_failures_are_refused_or_missing(x: Transfer)
    ensures
        x.all_failures(false) == x.refused,
        x.acked_msgs <= x.count ==> x.all_failures(true) == x.refused + x.count - x.acked_msgs,
        x.acked_msgs >= x.count ==> x.all_failures(true) == x.refused,
        x.complete() <==> x.acked_msgs >= x.count,
{
}

/// A transport is clean exactly where nothing failed and its time does not
/// exceed the budget; a run passes exactly where both transports are clean and
/// QUIC kept up.
pub proof fn law_pass_needs_both_transports(r: RunResult, budget: Duration, v: Verdict)
    ensures
        r.clean(budget) <==> r.failures == 0 && r.elapsed.nanos <= budget.nanos,
        v.is_pass() <==> v.tcp_clean && v.quic_clean && v.parity,
{
}

/// The ratio times the time of TCP gives the time of QUIC, to within a few
/// millionths.
pub proof fn law_ratio_times_tcp_is_quic(tcp: Duration, quic: Duration)
    requires
        0 < tcp.nanos < 0x80_0000 * time::NANOS_PER_SEC,
        0 < quic.nanos < 0x80_0000 * time::NANOS_PER_SEC,
    ensures
        time_ratio_value(tcp, quic) matches binary64::Value::Finite { negative, magnitude }
            && !negative && {
            let exact = quic.nanos * binary64::unit();
            &&& 999_996 * exact <= 1_000_000 * (magnitude * tcp.nanos)
            &&& 1_000_000 * (magnitude * tcp.nanos) <= 1_000_004 * exact
        },
{
    let u = binary64::unit();
    let billion = time::NANOS_PER_SEC as nat;
    time::lemma_seconds_closely(quic);
    time::lemma_secs_positive(tcp);
    let q = quic.secs_value()->Finite_magnitude;
    let exact = (quic.nanos * u) as nat;
    lemma_pow2_pos(1040);
    lemma_pow2_adds(34, 1040);
    lemma2_to64();
    lemma2_to64_rest();
    assert(exact >= 1 * u) by (nonlinear_arith)
        requires
            exact == quic.nanos * u,
            quic.nanos >= 1,
    ;
    assert(u == 0x4_0000_0000 * pow2(1040));
    assert(pow2(1040) <= q);
    time::lemma_over_seconds_closely(q, tcp);
    let r = time_ratio_value(tcp, quic)->Finite_magnitude;
    let taken = r * tcp.nanos;
    assert(999_996 * exact <= 1_000_000 * taken && 1_000_000 * taken <= 1_000_004 * exact)
        by (nonlinear_arith)
        requires
            999_999 * exact <= 1_000_000 * (q * billion),
            1_000_000 * (q * billion) <= 1_000_001 * exact,
            999_998 * (q * billion) <= 1_000_000 * taken,
            1_000_000 * taken <= 1_000_002 * (q * billion),
            exact >= 0,
    ;
}

/// The goodput times the time gives back the bytes, in mebibytes, to within a
/// few millionths.
pub proof fn law_goodput_times_time_is_the_data(bytes: nat, elapsed: Duration)
    requires
        0 < elapsed.nanos < 0x80_0000 * time::NANOS_PER_SEC,
        0 < bytes <= rounding::SIGNIFICAND_LIMIT,
    ensures
        goodput_value(bytes, elapsed) matches binary64::Value::Finite { negative, magnitude }
            && !negative && {
            let exact = (bytes * binary64::unit()) * time::NANOS_PER_SEC;
            &&& 999_997 * exact <= 1_000_000 * ((magnitude * 1_048_576) * elapsed.nanos)
            &&& 1_000_000 * ((magnitude * 1_048_576) * elapsed.nanos) <= 1_000_003 * exact
        },
{
    let u = binary64::unit();
    let mib = MIB as nat;
    binary64::lemma_of_exact(bytes);
    binary64::lemma_of_exact(mib);
    lemma_pow2_pos(1074);
    lemma_pow2_pos(1054);
    lemma_pow2_adds(20, 1054);
    lemma2_to64();
    lemma2_to64_rest();
    assert(pow2(1054) <= bytes * u <= rounding::SIGNIFICAND_LIMIT * u) by (nonlinear_arith)
        requires
            1 <= bytes <= rounding::SIGNIFICAND_LIMIT,
            u == 0x10_0000 * pow2(1054),
            pow2(1054) > 0,
    ;
    lemma_pow2_strictly_increases(1040, 1054);
    time::lemma_over_seconds_closely(bytes * u, elapsed);
    let q = binary64::Value::of(bytes).over(elapsed.secs_value())->Finite_magnitude;
    assert(mib * u > 0) by (nonlinear_arith)
        requires
            mib == 1048576,
            u > 0,
    ;
    assert((q * u) * mib == q * (mib * u)) by (nonlinear_arith);
    rounding::lemma_round_same_value(q * u, mib * u, q, mib);
    assert(q >= rounding::SIGNIFICAND_LIMIT * mib) by {
        lemma_pow2_adds(54, 1000);
        lemma_pow2_adds(54, 946);
        lemma_pow2_pos(946);
        assert(pow2(1000) >= pow2(54)) by (nonlinear_arith)
            requires
                pow2(1000) == pow2(54) * pow2(946),
                pow2(946) >= 1,
        ;
        assert(pow2(1054) >= pow2(54) * pow2(54)) by (nonlinear_arith)
            requires
                pow2(1054) == pow2(54) * pow2(1000),
                pow2(1000) >= pow2(54),
        ;
        assert(pow2(54) == 0x40_0000_0000_0000);
    }
    rounding::law_rounding_error(q, mib);
    let g = rounding::round_quotient(q, mib);
    let back = g * mib;
    let gap = back - q;
    let nanos = elapsed.nanos as nat;
    let exact = (bytes * u) * (time::NANOS_PER_SEC as nat);
    assert(999_999_999 * q <= 1_000_000_000 * back <= 1_000_000_001 * q) by (nonlinear_arith)
        requires
            gap == back - q,
            -(q as int) <= 0x20_0000_0000_0000 * gap <= q,
    ;
    assert(999_997 * exact <= 1_000_000 * (back * nanos) && 1_000_000 * (back * nanos) <= 1_000_003
        * exact) by (nonlinear_arith)
        requires
            999_999_999 * q <= 1_000_000_000 * back,
            1_000_000_000 * back <= 1_000_000_001 * q,
            999_998 * exact <= 1_000_000 * (q * nanos),
            1_000_000 * (q * nanos) <= 1_000_002 * exact,
            exact >= 0,
            nanos >= 0,
    {
        assert((999_999_999 * q) * nanos <= (1_000_000_000 * back) * nanos);
        assert((1_000_000_000 * back) * nanos <= (1_000_000_001 * q) * nanos);
        assert(999_999_999 * (q * nanos) <= 1_000_000_000 * (back * nanos));
        assert(1_000_000_000 * (back * nanos) <= 1_000_000_001 * (q * nanos));
    }
    assert(g <= q) by (nonlinear_arith)
        requires
            1_000_000_000 * (g * mib) <= 1_000_000_001 * q,
            mib == 1048576,
    ;
    lemma_pow2_strictly_increases(1160, 2098);
}

/// A message is in range exactly where its bytes can be held in memory.
pub proof fn law_messages_fit_in_memory(cfg: Config)
    ensures
        cfg.in_range() <==> cfg.size_mib * 1_048_576 <= isize::MAX,
{
}

/// A run passes exactly where both transports moved everything within the
/// budget, and QUIC kept the limit where there is one.
pub proof fn law_verdict_weighs_both_transports(
    cfg: Config,
    tcp: RunResult,
    quic: RunResult,
    v: Verdict,
)
    requires
        call_ensures(judge, (&cfg, &tcp, &quic), v),
        0 < tcp.elapsed.nanos <= rounding::SIGNIFICAND_LIMIT * time::NANOS_PER_SEC,
        quic.elapsed.nanos <= rounding::SIGNIFICAND_LIMIT * time::NANOS_PER_SEC,
    ensures
        v.tcp_clean <==> tcp.failures == 0 && tcp.elapsed.nanos <= cfg.budget.nanos,
        v.quic_clean <==> quic.failures == 0 && quic.elapsed.nanos <= cfg.budget.nanos,
        !binary64::Value::of(0).less(cfg.ratio_max@) ==> v.parity,
        binary64::Value::of(0).less(cfg.ratio_max@) ==> (v.parity <==> !cfg.ratio_max@.less(
            time_ratio_value(tcp.elapsed, quic.elapsed),
        )),
        quic.elapsed.nanos <= tcp.elapsed.nanos && !cfg.ratio_max@.less(binary64::Value::of(1))
            ==> v.parity,
        v.is_pass() <==> v.tcp_clean && v.quic_clean && v.parity,
{
    time::lemma_secs_positive(tcp.elapsed);
    law_faster_quic_keeps_parity(cfg.ratio_max@, tcp.elapsed, quic.elapsed, quic.elapsed);
}

/// The ratio that is computed, times the time of TCP, gives the time of QUIC.
pub proof fn law_computed_ratio_is_quic_over_tcp(tcp: Duration, quic: Duration, r: Binary64)
    requires
        call_ensures(time_ratio, (tcp, quic), r),
        0 < tcp.nanos < 0x80_0000 * time::NANOS_PER_SEC,
        0 < quic.nanos < 0x80_0000 * time::NANOS_PER_SEC,
    ensures
        r@ matches binary64::Value::Finite { negative, magnitude } && !negative && {
            let exact = quic.nanos * binary64::unit();
            &&& 999_996 * exact <= 1_000_000 * (magnitude * tcp.nanos)
            &&& 1_000_000 * (magnitude * tcp.nanos) <= 1_000_004 * exact
        },
{
    law_ratio_times_tcp_is_quic(tcp, quic);
}

/// The result of a transfer reports its failures, its time and the goodput of
/// all messages.
pub proof fn law_result_reports_the_transfer(
    x: Transfer,
    bytes_each: usize,
    elapsed: Duration,
    timed_out: bool,
    r: RunResult,
)
    requires
        call_ensures(summarize, (&x, bytes_each, elapsed, timed_out), r),
        x.acked_msgs <= x.count,
    ensures
        r.elapsed == elapsed && r.count == x.count && r.bytes_each == bytes_each,
        r.failures == x.refused + if timed_out {
            x.count - x.acked_msgs
        } else {
            0
        },
        r.goodput@ == goodput_value((x.count * bytes_each) as nat, elapsed),
{
}

/// A message that comes back counts once, with its bytes, and all are back with
/// the last of them; a message that is refused counts as tried and as refused.
pub proof fn law_messages_are_counted(
    back: &mut Transfer,
    data: Bytes,
    all: bool,
    sent: &mut Transfer,
    ok: bool,
)
    requires
        call_ensures(Transfer::on_message, (back, &data), all),
        call_ensures(Transfer::on_send, (sent, ok), ()),
        back.acked_msgs < usize::MAX,
        back.acked_bytes + wire::contents(data).len() <= usize::MAX,
        sent.in_bounds(),
        sent.tried < sent.count,
    ensures
        final(back).acked_msgs == old(back).acked_msgs + 1,
        final(back).acked_bytes == old(back).acked_bytes + wire::contents(data).len(),
        all <==> old(back).acked_msgs + 1 >= old(back).count,
        final(sent).tried == old(sent).tried + 1,
        ok ==> final(sent).refused == old(sent).refused,
        !ok ==> final(sent).refused == old(sent).refused + 1,
        final(sent).acked_msgs == old(sent).acked_msgs && final(sent).count == old(sent).count,
{
}

} // verus!
