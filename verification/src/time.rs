//! Spans of time.

use vstd::arithmetic::power2::*;
use vstd::prelude::*;

use crate::binary64;
use crate::binary64::Binary64;
use crate::rounding;

verus! {

/// Nanoseconds in a second.
pub const NANOS_PER_SEC: u128 = 1_000_000_000;

/// Nanoseconds in a millisecond.
pub const NANOS_PER_MILLI: u128 = 1_000_000;

/// A span of time, in nanoseconds.
#[derive(Clone, Copy, PartialEq, Eq, Structural, Debug)]
pub struct Duration {
    pub nanos: u128,
}

impl Duration {
    pub fn from_secs(secs: u64) -> (r: Duration)
        ensures
            r.nanos == secs * NANOS_PER_SEC,
    {
        Duration { nanos: secs as u128 * NANOS_PER_SEC }
    }

    pub fn from_millis(millis: u64) -> (r: Duration)
        ensures
            r.nanos == millis * NANOS_PER_MILLI,
    {
        Duration { nanos: millis as u128 * NANOS_PER_MILLI }
    }

    pub fn from_nanos(nanos: u128) -> (r: Duration)
        ensures
            r.nanos == nanos,
    {
        Duration { nanos }
    }

    pub fn as_millis(self) -> (r: u128)
        ensures
            r == self.nanos / NANOS_PER_MILLI,
    {
        self.nanos / NANOS_PER_MILLI
    }

    /// The span in seconds: whole seconds plus the fraction of one, each
    /// rounded to binary64.
    pub open spec fn secs_value(self) -> binary64::Value {
        binary64::Value::of((self.nanos / NANOS_PER_SEC) as nat).plus(
            binary64::Value::of((self.nanos % NANOS_PER_SEC) as nat).over(
                binary64::Value::of(NANOS_PER_SEC as nat),
            ),
        )
    }

    /// The span in seconds.
    pub fn as_secs_number(self) -> (r: Binary64)
        ensures
            r@ == self.secs_value(),
    {
        let whole: Binary64 = Binary64::of(self.nanos / NANOS_PER_SEC);
        let part: Binary64 = Binary64::of(self.nanos % NANOS_PER_SEC);
        whole.plus(part.over(Binary64::of(NANOS_PER_SEC)))
    }
}

/// Every span is a finite number of seconds, and not a negative one.
pub proof fn lemma_secs_finite(d: Duration)
    ensures
        d.secs_value() matches binary64::Value::Finite { negative, .. } && !negative,
{
    let u = binary64::unit();
    let whole = (d.nanos / NANOS_PER_SEC) as nat;
    let part = (d.nanos % NANOS_PER_SEC) as nat;
    let billion = NANOS_PER_SEC as nat;
    lemma_pow2_pos(1074);
    binary64::lemma_of_finite(whole);
    binary64::lemma_of_exact(part);
    binary64::lemma_of_exact(billion);
    let a = binary64::Value::of(whole)->Finite_magnitude;
    assert(billion * u > 0) by (nonlinear_arith)
        requires
            billion > 0,
            u > 0,
    ;
    assert(((part * u) * u) * 1 <= (1 * u) * (billion * u)) by (nonlinear_arith)
        requires
            part <= billion,
    ;
    rounding::lemma_round_monotone((part * u) * u, billion * u, (1 * u) as nat, 1);
    rounding::lemma_representable(1, 1074);
    lemma_pow2_strictly_increases(1074, 1202);
    lemma_pow2_strictly_increases(1202, 2098);
    lemma_pow2_strictly_increases(1203, 2098);
    lemma_pow2_unfold(1203);
    let b = rounding::round_quotient((part * u) * u, billion * u);
    assert(a + b <= 1 * pow2(1203));
    rounding::lemma_round_monotone(a + b, 1, (1 * pow2(1203)) as nat, 1);
    rounding::lemma_representable(1, 1203);
}

/// The span between two instants in nanoseconds; zero where the second is not
/// the later one.
pub open spec fn between(start: nat, now: nat) -> nat {
    if now > start {
        (now - start) as nat
    } else {
        0
    }
}

/// The span between two instants in nanoseconds.
pub fn elapsed(start: u128, now: u128) -> (r: Duration)
    ensures
        r.nanos == between(start as nat, now as nat),
{
    Duration {
        nanos: if now > start {
            now - start
        } else {
            0
        },
    }
}

/// The span between two instants, added to the first, gives the second; it is
/// zero where the second is not later.
pub proof fn law_span_leads_from_first_to_second(start: nat, now: nat)
    ensures
        start <= now ==> start + between(start, now) == now,
        start >= now ==> between(start, now) == 0,
{
}

/// A whole number of seconds is exactly that number.
pub proof fn law_whole_seconds_are_exact(d: Duration, secs: nat)
    requires
        d.nanos == secs * NANOS_PER_SEC,
        secs <= rounding::SIGNIFICAND_LIMIT,
    ensures
        d.secs_value() == binary64::Value::of(secs),
{
    let u = binary64::unit();
    assert(d.nanos / NANOS_PER_SEC == secs && d.nanos % NANOS_PER_SEC == 0) by {
        vstd::arithmetic::div_mod::lemma_fundamental_div_mod_converse(
            d.nanos as int,
            NANOS_PER_SEC as int,
            secs as int,
            0,
        );
    }
    binary64::lemma_of_exact(secs);
    binary64::lemma_zero_over(NANOS_PER_SEC as nat);
    binary64::lemma_of_exact(0);
    rounding::lemma_representable(secs, 1074);
    lemma_pow2_pos(1074);
    if secs > 0 {
        assert(secs * u > 0) by (nonlinear_arith)
            requires
                secs > 0,
                u > 0,
        ;
    }
}

/// A span below 2^23 seconds is, in seconds, its nanoseconds over a thousand
/// million, to within the 2^30th part of a second.
pub proof fn law_seconds_are_nanoseconds_over_a_billion(d: Duration)
    requires
        d.nanos < 0x80_0000 * NANOS_PER_SEC,
    ensures
        d.secs_value() matches binary64::Value::Finite { negative, magnitude } && !negative && {
            let steps = (d.nanos * 0x4000_0000) / (NANOS_PER_SEC as int);
            steps * pow2(1044) <= magnitude <= (steps + 1) * pow2(1044)
        },
{
    let u = binary64::unit();
    let fine = pow2(1044);
    let whole = (d.nanos / NANOS_PER_SEC) as nat;
    let part = (d.nanos % NANOS_PER_SEC) as nat;
    let billion = NANOS_PER_SEC as nat;
    let grid = 0x4000_0000nat;
    lemma_pow2_pos(1074);
    lemma_pow2_pos(1044);
    lemma_pow2_adds(30, 1044);
    lemma2_to64();
    assert(u == grid * fine);
    lemma_secs_finite(d);
    binary64::lemma_of_exact(whole);
    binary64::law_quotient_is_nearest(part, billion);
    binary64::lemma_ratio_finite(part, billion);
    let g = part * grid / billion;
    vstd::arithmetic::div_mod::lemma_fundamental_div_mod((part * grid) as int, billion as int);
    assert((g * fine) * billion <= part * u && part * u <= ((g + 1) * fine) * billion)
        by (nonlinear_arith)
        requires
            u == grid * fine,
            billion * g <= part * grid,
            part * grid <= billion * g + billion,
    ;
    rounding::lemma_round_at_least(part * u, billion, g, 1044);
    rounding::lemma_round_at_most(part * u, billion, g + 1, 1044);
    let m = rounding::round_quotient(part * u, billion);
    let steps = whole * grid + g;
    assert(steps * fine <= whole * u + m && whole * u + m <= (steps + 1) * fine)
        by (nonlinear_arith)
        requires
            steps == whole * grid + g,
            u == grid * fine,
            g * fine <= m,
            m <= (g + 1) * fine,
    ;
    rounding::lemma_round_at_least(whole * u + m, 1, steps, 1044);
    rounding::lemma_round_at_most(whole * u + m, 1, steps + 1, 1044);
    assert(d.nanos * grid == billion * (whole * grid) + part * grid) by (nonlinear_arith)
        requires
            d.nanos == whole * billion + part,
    ;
    vstd::arithmetic::div_mod::lemma_hoist_over_denominator(
        (part * grid) as int,
        (whole * grid) as int,
        billion,
    );
    assert((d.nanos * grid) / (billion as int) == steps);
    assert(0 * fine == 0);
}

/// Up to 2^53 seconds a longer span is no fewer seconds.
pub proof fn law_longer_spans_are_no_fewer_seconds(a: Duration, b: Duration)
    requires
        a.nanos <= b.nanos,
        b.nanos <= rounding::SIGNIFICAND_LIMIT * NANOS_PER_SEC,
    ensures
        !b.secs_value().less(a.secs_value()),
        a.secs_value()->Finite_magnitude <= b.secs_value()->Finite_magnitude,
{
    let u = binary64::unit();
    let billion = NANOS_PER_SEC as nat;
    lemma_secs_finite(a);
    lemma_secs_finite(b);
    lemma_pow2_pos(1074);
    let (wa, wb) = ((a.nanos / NANOS_PER_SEC) as nat, (b.nanos / NANOS_PER_SEC) as nat);
    let (pa, pb) = ((a.nanos % NANOS_PER_SEC) as nat, (b.nanos % NANOS_PER_SEC) as nat);
    binary64::law_quotient_is_nearest(pa, billion);
    binary64::law_quotient_is_nearest(pb, billion);
    binary64::lemma_ratio_finite(pa, billion);
    binary64::lemma_ratio_finite(pb, billion);
    binary64::lemma_of_finite(wa);
    binary64::lemma_of_finite(wb);
    binary64::lemma_of_monotone(wa, wb);
    let (ma, mb) = (
        rounding::round_quotient(pa * u, billion),
        rounding::round_quotient(pb * u, billion),
    );
    let (va, vb) = (
        rounding::round_quotient(wa * u, 1),
        rounding::round_quotient(wb * u, 1),
    );
    if wa == wb {
        binary64::law_ratio_keeps_order(pa, billion, pb, billion);
    } else {
        assert(wa < wb);
        binary64::lemma_of_exact(wa);
        binary64::lemma_of_exact(wb);
        assert(pa * u <= (1 * pow2(1074)) * billion) by (nonlinear_arith)
            requires
                pa <= billion,
                u == pow2(1074),
        ;
        rounding::lemma_round_at_most(pa * u, billion, 1, 1074);
        assert(wa * u + 1 * u <= wb * u) by (nonlinear_arith)
            requires
                wa + 1 <= wb,
        ;
    }
    assert(va + ma <= vb + mb);
    rounding::lemma_round_monotone(va + ma, 1, vb + mb, 1);
    assert(va + ma == 0 ==> rounding::round_quotient(0, 1) == 0) by {
        rounding::lemma_representable(0, 0);
        assert(0 * pow2(0) == 0);
    }
}

/// A span other than none is more than zero seconds.
pub proof fn lemma_secs_positive(d: Duration)
    requires
        0 < d.nanos <= rounding::SIGNIFICAND_LIMIT * NANOS_PER_SEC,
    ensures
        d.secs_value() matches binary64::Value::Finite { negative, magnitude } && !negative
            && magnitude > 0,
        binary64::Value::of(0).less(d.secs_value()),
{
    let least = Duration { nanos: 1 };
    lemma_secs_finite(d);
    lemma_secs_finite(least);
    law_seconds_are_nanoseconds_over_a_billion(least);
    law_longer_spans_are_no_fewer_seconds(least, d);
    lemma_pow2_pos(1044);
    assert((least.nanos * 0x4000_0000) / (NANOS_PER_SEC as int) == 1);
    assert(1 * pow2(1044) > 0);
    binary64::lemma_of_exact(0);
}

/// The seconds of a span of at least a second, to within a millionth.
proof fn lemma_whole_seconds_closely(d: Duration)
    requires
        NANOS_PER_SEC <= d.nanos < 0x80_0000 * NANOS_PER_SEC,
    ensures
        d.secs_value() matches binary64::Value::Finite { negative, magnitude } && !negative && {
            let exact = d.nanos * binary64::unit();
            &&& 999_999 * exact <= 1_000_000 * (magnitude * NANOS_PER_SEC)
            &&& 1_000_000 * (magnitude * NANOS_PER_SEC) <= 1_000_001 * exact
            &&& magnitude > 0
            &&& magnitude <= 0x100_0000 * binary64::unit()
        },
{
    let u = binary64::unit();
    let fine = pow2(1044);
    let grid = 0x4000_0000nat;
    let billion = NANOS_PER_SEC as nat;
    let nanos = d.nanos as nat;
    lemma_pow2_pos(1044);
    lemma_pow2_adds(30, 1044);
    lemma2_to64();
    law_seconds_are_nanoseconds_over_a_billion(d);
    let m = d.secs_value()->Finite_magnitude;
    let steps = (nanos * grid) / billion;
    vstd::arithmetic::div_mod::lemma_fundamental_div_mod((nanos * grid) as int, billion as int);
    assert(steps >= 1_073_741);
    assert(steps <= 0x80_0000 * grid);
    assert((nanos * u) == (nanos * grid) * fine) by (nonlinear_arith)
        requires
            u == grid * fine,
    ;
    let low = steps * billion;
    let high = (steps + 1) * billion;
    assert(low <= nanos * grid < high);
    assert(999_999 * high <= 1_000_000 * low);
    assert(m * billion >= low * fine && m * billion <= high * fine) by (nonlinear_arith)
        requires
            steps * fine <= m,
            m <= (steps + 1) * fine,
            low == steps * billion,
            high == (steps + 1) * billion,
    ;
    assert(999_999 * ((nanos * grid) * fine) <= 1_000_000 * (m * billion)) by (nonlinear_arith)
        requires
            nanos * grid <= high,
            999_999 * high <= 1_000_000 * low,
            low * fine <= m * billion,
    {
        assert(999_999 * (nanos * grid) <= 1_000_000 * low);
        assert((999_999 * (nanos * grid)) * fine <= (1_000_000 * low) * fine);
    }
    assert(1_000_000 * high <= 1_000_001 * low);
    assert(1_000_000 * (m * billion) <= 1_000_001 * ((nanos * grid) * fine)) by (nonlinear_arith)
        requires
            low <= nanos * grid,
            1_000_000 * high <= 1_000_001 * low,
            m * billion <= high * fine,
    {
        assert(1_000_000 * high <= 1_000_001 * (nanos * grid));
        assert((1_000_000 * high) * fine <= (1_000_001 * (nanos * grid)) * fine);
    }
    assert(m > 0) by (nonlinear_arith)
        requires
            steps * fine <= m,
            steps >= 1,
            fine > 0,
    ;
    assert(m <= 0x100_0000 * u) by (nonlinear_arith)
        requires
            m <= (steps + 1) * fine,
            steps + 1 <= 0x100_0000 * grid,
            u == grid * fine,
    ;
}

/// The seconds of a span of less than a second, to within a millionth.
proof fn lemma_part_of_a_second_closely(d: Duration)
    requires
        0 < d.nanos < NANOS_PER_SEC,
    ensures
        d.secs_value() matches binary64::Value::Finite { negative, magnitude } && !negative && {
            let exact = d.nanos * binary64::unit();
            &&& 999_999 * exact <= 1_000_000 * (magnitude * NANOS_PER_SEC)
            &&& 1_000_000 * (magnitude * NANOS_PER_SEC) <= 1_000_001 * exact
            &&& magnitude > 0
            &&& magnitude <= 0x100_0000 * binary64::unit()
        },
{
    let u = binary64::unit();
    let billion = NANOS_PER_SEC as nat;
    let nanos = d.nanos as nat;
    lemma_pow2_pos(1074);
    lemma_secs_positive(d);
    binary64::lemma_of_exact(0);
    binary64::law_quotient_is_nearest(nanos, billion);
    binary64::lemma_ratio_finite(nanos, billion);
    rounding::lemma_rounded_quotient_stays(nanos * u, billion);
    rounding::lemma_representable(0, 0);
    assert(0 * pow2(0) == 0);
    assert(d.nanos / NANOS_PER_SEC == 0 && d.nanos % NANOS_PER_SEC == d.nanos);
    let m = rounding::round_quotient(nanos * u, billion);
    assert(d.secs_value()->Finite_magnitude == m);
    lemma_pow2_adds(84, 990);
    lemma_pow2_adds(64, 20);
    lemma2_to64();
    lemma2_to64_rest();
    lemma_pow2_pos(990);
    assert(u >= 0x20_0000_0000_0000 * billion) by (nonlinear_arith)
        requires
            u == pow2(84) * pow2(990),
            pow2(990) >= 1,
            pow2(84) == 0x1_0000_0000_0000_0000 * 0x10_0000,
            billion == 1_000_000_000,
    ;
    assert(nanos * u >= u) by (nonlinear_arith)
        requires
            nanos >= 1,
    ;
    rounding::law_rounding_error(nanos * u, billion);
    let exact = nanos * u;
    let gap = m * billion - exact;
    assert(999_999 * exact <= 1_000_000 * (m * billion) && 1_000_000 * (m * billion) <= 1_000_001
        * exact) by (nonlinear_arith)
        requires
            gap == m * billion - exact,
            -(exact as int) <= 0x20_0000_0000_0000 * gap <= exact,
    ;
    assert(nanos * u <= (1 * pow2(1074)) * billion) by (nonlinear_arith)
        requires
            nanos <= billion,
            u == pow2(1074),
    ;
    rounding::lemma_round_at_most(nanos * u, billion, 1, 1074);
}

/// The seconds of a span, to within a millionth.
pub proof fn lemma_seconds_closely(d: Duration)
    requires
        0 < d.nanos < 0x80_0000 * NANOS_PER_SEC,
    ensures
        d.secs_value() matches binary64::Value::Finite { negative, magnitude } && !negative && {
            let exact = d.nanos * binary64::unit();
            &&& 999_999 * exact <= 1_000_000 * (magnitude * NANOS_PER_SEC)
            &&& 1_000_000 * (magnitude * NANOS_PER_SEC) <= 1_000_001 * exact
            &&& magnitude > 0
            &&& magnitude <= 0x100_0000 * binary64::unit()
        },
{
    if d.nanos < NANOS_PER_SEC {
        lemma_part_of_a_second_closely(d);
    } else {
        lemma_whole_seconds_closely(d);
    }
}

/// A number over the seconds of a span: times the nanoseconds it gives the
/// number times a thousand million, to within a few millionths.
pub proof fn lemma_over_seconds_closely(x: nat, d: Duration)
    requires
        0 < d.nanos < 0x80_0000 * NANOS_PER_SEC,
        pow2(1040) <= x <= rounding::SIGNIFICAND_LIMIT * binary64::unit(),
    ensures
        (binary64::Value::Finite { negative: false, magnitude: x }).over(d.secs_value()) matches binary64::Value::Finite {
            negative,
            magnitude,
        } && !negative && {
            &&& 999_998 * (x * NANOS_PER_SEC) <= 1_000_000 * (magnitude * d.nanos)
            &&& 1_000_000 * (magnitude * d.nanos) <= 1_000_002 * (x * NANOS_PER_SEC)
            &&& magnitude <= pow2(1160)
            &&& x <= magnitude * 0x100_0000
        },
{
    let u = binary64::unit();
    let billion = NANOS_PER_SEC as nat;
    let nanos = d.nanos as nat;
    lemma_seconds_closely(d);
    lemma_pow2_pos(1074);
    lemma2_to64();
    lemma2_to64_rest();
    let m = d.secs_value()->Finite_magnitude;
    let num = x * u;
    let q = rounding::round_quotient(num, m);
    // The quotient is far above 2^53 units.
    assert(x >= 0x8000_0000_0000_0000 * 0x10_0000) by {
        lemma_pow2_adds(83, 957);
        lemma_pow2_adds(63, 20);
        lemma_pow2_pos(957);
        assert(pow2(1040) >= pow2(83)) by (nonlinear_arith)
            requires
                pow2(1040) == pow2(83) * pow2(957),
                pow2(957) >= 1,
        ;
    }
    assert(num >= rounding::SIGNIFICAND_LIMIT * m) by (nonlinear_arith)
        requires
            num == x * u,
            x >= 0x20_0000_0000_0000 * 0x100_0000,
            m <= 0x100_0000 * u,
            rounding::SIGNIFICAND_LIMIT == 0x20_0000_0000_0000,
    {
        assert(x * u >= (0x20_0000_0000_0000 * 0x100_0000) * u);
    }
    rounding::law_rounding_error(num, m);
    let gap = q * m - num;
    assert(999_999_999 * num <= 1_000_000_000 * (q * m) <= 1_000_000_001 * num) by (nonlinear_arith)
        requires
            gap == q * m - num,
            -(num as int) <= 0x20_0000_0000_0000 * gap <= num,
    ;
    // From seconds to nanoseconds.
    let exact = nanos * u;
    assert(999_998 * (x * billion) <= 1_000_000 * (q * nanos)) by {
        let a = (x * billion) * u;
        let b = (q * nanos) * u;
        assert(b == q * exact) by (nonlinear_arith)
            requires
                b == (q * nanos) * u,
                exact == nanos * u,
        ;
        assert(999_998 * a <= 1_000_000 * b) by (nonlinear_arith)
            requires
                a == (x * billion) * u,
                b == q * exact,
                exact == nanos * u,
                num == x * u,
                999_999_999 * num <= 1_000_000_000 * (q * m),
                1_000_000 * (m * billion) <= 1_000_001 * exact,
        {
            assert(a == num * billion);
            assert((999_999_999 * num) * billion <= (1_000_000_000 * (q * m)) * billion);
            assert((1_000_000_000 * (q * m)) * billion == 1_000 * (q * (1_000_000 * (m * billion))));
            assert(q * (1_000_000 * (m * billion)) <= q * (1_000_001 * exact));
            assert(999_999_999 * a <= 1_000 * (1_000_001 * b));
        }
        assert(b == (q * nanos) * u);
        assert(999_998 * (x * billion) <= 1_000_000 * (q * nanos)) by (nonlinear_arith)
            requires
                999_998 * ((x * billion) * u) <= 1_000_000 * ((q * nanos) * u),
                u > 0,
        ;
    }
    assert(1_000_000 * (q * nanos) <= 1_000_002 * (x * billion)) by {
        let a = (x * billion) * u;
        let b = (q * nanos) * u;
        assert(b == q * exact) by (nonlinear_arith)
            requires
                b == (q * nanos) * u,
                exact == nanos * u,
        ;
        assert(1_000_000 * b <= 1_000_002 * a) by (nonlinear_arith)
            requires
                a == (x * billion) * u,
                b == q * exact,
                exact == nanos * u,
                num == x * u,
                1_000_000_000 * (q * m) <= 1_000_000_001 * num,
                999_999 * exact <= 1_000_000 * (m * billion),
        {
            assert(a == num * billion);
            assert((1_000_000_000 * (q * m)) * billion <= (1_000_000_001 * num) * billion);
            assert((1_000_000_000 * (q * m)) * billion == 1_000 * (q * (1_000_000 * (m * billion))));
            assert(q * (999_999 * exact) <= q * (1_000_000 * (m * billion)));
            assert(1_000 * (999_999 * b) <= 1_000_000_001 * a);
        }
        assert(1_000_000 * (q * nanos) <= 1_000_002 * (x * billion)) by (nonlinear_arith)
            requires
                1_000_000 * ((q * nanos) * u) <= 1_000_002 * ((x * billion) * u),
                u > 0,
        ;
    }
    assert(x <= q * 0x100_0000) by (nonlinear_arith)
        requires
            999_998 * (x * billion) <= 1_000_000 * (q * nanos),
            nanos <= 0x80_0000 * billion,
            billion > 0,
    {
        assert(q * nanos <= q * (0x80_0000 * billion));
        assert(999_998 * (x * billion) <= (1_000_000 * 0x80_0000) * (q * billion));
    }
    // It is finite.
    assert(q <= pow2(1160)) by {
        lemma_pow2_adds(86, 1074);
        lemma_pow2_adds(53, 33);
        assert(q <= 2_000_000_000 * x) by (nonlinear_arith)
            requires
                1_000_000 * (q * nanos) <= 1_000_002 * (x * billion),
                billion == 1_000_000_000,
                nanos >= 1,
        ;
        assert(2_000_000_000 * x <= pow2(86) * u) by (nonlinear_arith)
            requires
                x <= 0x20_0000_0000_0000 * u,
                pow2(86) == 0x20_0000_0000_0000 * 0x2_0000_0000,
        ;
    }
    lemma_pow2_strictly_increases(1160, 2098);
}

} // verus!
