//! Latency samples and their percentiles.

use vstd::arithmetic::div_mod::*;
use vstd::arithmetic::power2::*;
use vstd::prelude::*;

use crate::binary64;
use crate::binary64::Binary64;
use crate::rounding;

verus! {

/// Whether samples stand in ascending order.
pub open spec fn ascending(s: Seq<u128>) -> bool {
    forall|i: int, j: int| 0 <= i <= j < s.len() ==> s[i] <= s[j]
}

/// `slice::sort_unstable` of the standard library: the samples come to stand
/// in ascending order, and stay the same samples.
#[verifier::external_body]
fn sort_unstable(samples: &mut Vec<u128>)
    ensures
        ascending(final(samples)@),
        final(samples)@.to_multiset() == old(samples)@.to_multiset(),
{
    samples.sort_unstable();
}

/// The position of a percentile among `len` samples: the nearest to the
/// fraction `p` of the way from the first to the last, halves up.
pub open spec fn rank(len: nat, p: binary64::Value) -> nat {
    binary64::Value::of(len).minus(binary64::Value::of(1)).times(p).nearest_whole((len - 1) as nat)
}

/// The percentile `p` of samples in ascending order; zero without samples.
pub open spec fn percentile(sorted: Seq<u128>, p: binary64::Value) -> u128 {
    if sorted.len() == 0 {
        0
    } else {
        sorted[rank(sorted.len(), p) as int]
    }
}

/// The percentile `p` of samples in ascending order.
pub fn pct(sorted: &Vec<u128>, p: Binary64) -> (r: u128)
    ensures
        r == percentile(sorted@, p@),
{
    let len: usize = sorted.len();
    if len == 0 {
        return 0;
    }
    let position: Binary64 = Binary64::of(len as u128).minus(Binary64::of(1)).times(p);
    let index: u64 = position.nearest_whole((len - 1) as u64);
    sorted[index as usize]
}

/// The fraction behind a percentile in hundredths.
pub open spec fn fraction(hundredths: nat) -> binary64::Value {
    binary64::Value::ratio(hundredths, 100)
}

/// The percentiles that the programs report, in nanoseconds.
#[derive(Clone, Copy, PartialEq, Eq, Structural, Debug)]
pub struct Percentiles {
    pub count: usize,
    pub p50: u128,
    pub p95: u128,
    pub p99: u128,
}

/// The order of samples.
pub open spec fn not_above() -> spec_fn(u128, u128) -> bool {
    |a: u128, b: u128| a <= b
}

/// Samples in ascending order.
pub open spec fn in_order(samples: Seq<u128>) -> Seq<u128> {
    samples.sort_by(not_above())
}

/// Whether `r` holds the percentiles of samples in whatever order.
pub open spec fn percentiles_of(samples: Seq<u128>, r: Percentiles) -> bool {
    &&& r.count == samples.len()
    &&& r.p50 == percentile(in_order(samples), fraction(50))
    &&& r.p95 == percentile(in_order(samples), fraction(95))
    &&& r.p99 == percentile(in_order(samples), fraction(99))
}

/// There is one ascending order of samples.
pub proof fn lemma_in_order(samples: Seq<u128>, sorted: Seq<u128>)
    requires
        ascending(sorted),
        sorted.to_multiset() == samples.to_multiset(),
    ensures
        in_order(samples) == sorted,
{
    lemma_ordered(samples);
    assert(vstd::relations::sorted_by(sorted, not_above()));
    vstd::seq_lib::lemma_sorted_unique(in_order(samples), sorted, not_above());
}

/// Samples in ascending order are the same samples.
proof fn lemma_ordered(samples: Seq<u128>)
    ensures
        vstd::relations::total_ordering(not_above()),
        vstd::relations::sorted_by(in_order(samples), not_above()),
        ascending(in_order(samples)),
        in_order(samples).to_multiset() == samples.to_multiset(),
        in_order(samples).len() == samples.len(),
{
    assert(vstd::relations::total_ordering(not_above()));
    samples.lemma_sort_by_ensures(not_above());
    let sorted = in_order(samples);
    assert forall|i: int, j: int| 0 <= i <= j < sorted.len() implies sorted[i] <= sorted[j] by {
        if i < j {
            assert(not_above()(sorted[i], sorted[j]));
        }
    }
    samples.to_multiset_ensures();
    sorted.to_multiset_ensures();
}

/// The percentiles of samples in whatever order.
pub fn percentiles(samples: Vec<u128>) -> (r: Percentiles)
    ensures
        percentiles_of(samples@, r),
{
    let mut sorted: Vec<u128> = samples;
    sort_unstable(&mut sorted);
    let r: Percentiles = Percentiles {
        count: sorted.len(),
        p50: pct(&sorted, Binary64::ratio(50, 100)),
        p95: pct(&sorted, Binary64::ratio(95, 100)),
        p99: pct(&sorted, Binary64::ratio(99, 100)),
    };
    proof {
        samples@.to_multiset_ensures();
        sorted@.to_multiset_ensures();
        lemma_in_order(samples@, sorted@);
    }
    r
}

/// Nanoseconds as milliseconds.
pub open spec fn millis_value(ns: nat) -> binary64::Value {
    binary64::Value::of(ns).over(binary64::Value::of(1_000_000))
}

/// Nanoseconds as milliseconds.
pub fn as_millis(ns: u128) -> (r: Binary64)
    ensures
        r@ == millis_value(ns as nat),
{
    Binary64::of(ns).over(Binary64::of(1_000_000))
}

/// Whether a latency keeps a cap in milliseconds; a cap of zero is none.
pub open spec fn within_cap(ns: nat, cap_ms: nat) -> bool {
    cap_ms == 0 || !binary64::Value::of(cap_ms).less(millis_value(ns))
}

/// Whether a latency keeps a cap in milliseconds; a cap of zero is none.
pub fn keeps_cap(ns: u128, cap_ms: u64) -> (r: bool)
    ensures
        r == within_cap(ns as nat, cap_ms as nat),
{
    cap_ms == 0 || !Binary64::of(cap_ms as u128).less(as_millis(ns))
}

/// The share of messages that were answered; zero where none was sent.
pub open spec fn delivery_value(acked: nat, sent: nat) -> binary64::Value {
    if sent == 0 {
        binary64::Value::of(0)
    } else {
        binary64::Value::of(acked).over(binary64::Value::of(sent))
    }
}

/// The share of messages that were answered.
pub fn delivery(acked: usize, sent: usize) -> (r: Binary64)
    ensures
        r@ == delivery_value(acked as nat, sent as nat),
{
    if sent > 0 {
        Binary64::of(acked as u128).over(Binary64::of(sent as u128))
    } else {
        Binary64::of(0)
    }
}

/// The numbers of steps from the first to the last of `len` samples.
proof fn lemma_steps(len: nat)
    requires
        0 < len <= u128::MAX,
    ensures
        binary64::Value::of(len).minus(binary64::Value::of(1)) matches binary64::Value::Finite {
            negative,
            magnitude,
        } && !negative,
        len <= rounding::SIGNIFICAND_LIMIT ==> binary64::Value::of(len).minus(
            binary64::Value::of(1),
        ) == (binary64::Value::Finite {
            negative: false,
            magnitude: ((len - 1) as nat) * binary64::unit(),
        }),
{
    let u = binary64::unit();
    lemma_pow2_pos(1074);
    binary64::lemma_of_exact(1);
    binary64::lemma_of_positive(len);
    binary64::lemma_of_finite(len);
    if let binary64::Value::Finite { negative, magnitude } = binary64::Value::of(len) {
        let rest = (magnitude - u) as nat;
        rounding::lemma_round_monotone(rest, 1, magnitude, 1);
        lemma_rounded_twice(len * u);
        if len <= rounding::SIGNIFICAND_LIMIT {
            binary64::lemma_of_exact(len);
            binary64::lemma_of_exact((len - 1) as nat);
            assert(len * u - u == ((len - 1) as nat) * u) by (nonlinear_arith)
                requires
                    len > 0,
            ;
            rounding::lemma_representable((len - 1) as nat, 1074);
        }
    }
}

/// Rounding a rounded number again changes nothing.
proof fn lemma_rounded_twice(m: nat)
    ensures
        rounding::round_quotient(rounding::round_quotient(m, 1), 1) == rounding::round_quotient(
            m,
            1,
        ),
{
    let k = rounding::excess(m);
    rounding::lemma_excess_bounds(m);
    lemma_pow2_pos(k);
    assert(m as int / 1 == m);
    let p = pow2(k);
    assert(1 * p == p);
    let c = rounding::nearest_even(m, p);
    lemma_fundamental_div_mod(m as int, p as int);
    let f = m / p;
    assert(f < rounding::SIGNIFICAND_LIMIT) by (nonlinear_arith)
        requires
            p * f <= m,
            m < rounding::SIGNIFICAND_LIMIT * p,
            p > 0,
    ;
    rounding::lemma_representable(c, k);
}

proof fn lemma_rank_monotone(len: nat, a: nat, b: nat)
    requires
        0 < len <= u128::MAX,
        a <= b <= 100,
    ensures
        rank(len, fraction(a)) <= rank(len, fraction(b)) <= len - 1,
{
    let u = binary64::unit();
    lemma_pow2_pos(1074);
    lemma_steps(len);
    let x = binary64::Value::of(len).minus(binary64::Value::of(1))->Finite_magnitude;
    assert((a * u) * 100 <= (b * u) * 100) by (nonlinear_arith)
        requires
            a <= b,
    ;
    rounding::lemma_round_monotone(a * u, 100, b * u, 100);
    assert((b * u) * 1 <= (1 * u) * 100) by (nonlinear_arith)
        requires
            b <= 100,
    ;
    rounding::lemma_round_monotone(b * u, 100, (1 * u) as nat, 1);
    rounding::lemma_representable(1, 1074);
    lemma_pow2_strictly_increases(1074, 2098);
    let ma = rounding::round_quotient(a * u, 100);
    let mb = rounding::round_quotient(b * u, 100);
    assert((x * ma) * u <= (x * mb) * u) by (nonlinear_arith)
        requires
            ma <= mb,
    ;
    rounding::lemma_round_monotone(x * ma, u, x * mb, u);
    let pa = rounding::round_quotient(x * ma, u);
    let pb = rounding::round_quotient(x * mb, u);
    lemma_div_is_ordered((2 * pa + u) as int, (2 * pb + u) as int, (2 * u) as int);
}

/// The reported percentiles are in order.
pub proof fn law_percentiles_are_ordered(samples: Seq<u128>, r: Percentiles)
    requires
        percentiles_of(samples, r),
        samples.len() <= usize::MAX,
    ensures
        r.p50 <= r.p95 <= r.p99,
{
    let sorted = in_order(samples);
    lemma_ordered(samples);
    samples.to_multiset_ensures();
    sorted.to_multiset_ensures();
    if sorted.len() > 0 {
        lemma_rank_monotone(sorted.len(), 50, 95);
        lemma_rank_monotone(sorted.len(), 95, 99);
    }
}

/// The reported percentiles are samples, where there are any.
pub proof fn law_percentiles_are_samples(samples: Seq<u128>, r: Percentiles)
    requires
        percentiles_of(samples, r),
        0 < samples.len() <= usize::MAX,
    ensures
        samples.contains(r.p50),
        samples.contains(r.p95),
        samples.contains(r.p99),
{
    let sorted = in_order(samples);
    lemma_ordered(samples);
    samples.to_multiset_ensures();
    sorted.to_multiset_ensures();
    lemma_rank_monotone(sorted.len(), 50, 95);
    lemma_rank_monotone(sorted.len(), 95, 99);
    assert(sorted.contains(r.p50)) by {
        assert(sorted[rank(sorted.len(), fraction(50)) as int] == r.p50);
    }
    assert(sorted.contains(r.p95)) by {
        assert(sorted[rank(sorted.len(), fraction(95)) as int] == r.p95);
    }
    assert(sorted.contains(r.p99)) by {
        assert(sorted[rank(sorted.len(), fraction(99)) as int] == r.p99);
    }
    assert(samples.to_multiset().count(r.p50) > 0);
    assert(samples.to_multiset().count(r.p95) > 0);
    assert(samples.to_multiset().count(r.p99) > 0);
}

/// Where every message is answered the share of answers is one.
pub proof fn law_full_delivery_is_one(n: nat)
    requires
        0 < n <= usize::MAX,
    ensures
        delivery_value(n, n) == binary64::Value::of(1),
{
    binary64::lemma_over_self(n);
}

/// A cap below 2^32 milliseconds is kept exactly by the latencies of no more
/// than that many milliseconds: rounding never tips the verdict.
pub proof fn law_cap_is_exact(ns: u128, cap_ms: u64)
    requires
        cap_ms <= u32::MAX,
    ensures
        within_cap(ns as nat, cap_ms as nat) <==> cap_ms == 0 || ns <= cap_ms * 1_000_000,
{
    let u = binary64::unit();
    let cap = cap_ms as nat;
    let million = 1_000_000nat;
    lemma_pow2_pos(1074);
    lemma_pow2_pos(1054);
    lemma2_to64();
    lemma_pow2_adds(20, 1054);
    binary64::lemma_of_exact(million);
    binary64::lemma_of_exact(cap);
    binary64::lemma_of_finite(ns as nat);
    binary64::lemma_of_finite(cap * million + 1);
    let m = rounding::round_quotient(ns as nat * u, 1);
    let quotient = rounding::round_quotient(m * u, million * u);
    assert(million * u > 0) by (nonlinear_arith)
        requires
            u > 0,
            million > 0,
    ;
    assert(million * u != 0);
    if ns <= cap * million {
        let edge = cap * million;
        binary64::lemma_of_monotone(ns as nat, edge);
        binary64::lemma_of_exact(edge);
        assert(m <= edge * u);
        assert((m * u) * 1 <= (cap * u) * (million * u)) by (nonlinear_arith)
            requires
                m <= (cap * million) * u,
        ;
        rounding::lemma_round_monotone(m * u, million * u, cap * u, 1);
        rounding::lemma_representable(cap, 1074);
        assert(quotient <= cap * u);
        lemma_pow2_strictly_increases(1128, 2098);
        lemma_pow2_adds(54, 1074);
        lemma2_to64_rest();
        assert(cap * u < 0x40_0000_0000_0000 * u) by (nonlinear_arith)
            requires
                cap <= 0xFFFF_FFFF,
                u > 0,
        ;
    } else {
        let edge = cap * million + 1;
        binary64::lemma_of_monotone(edge, ns as nat);
        binary64::lemma_of_exact(edge);
        assert(m >= edge * u);
        let fine = pow2(1054);
        let above = cap * 0x10_0000 + 1;
        assert(u == 0x10_0000 * fine);
        assert((above * fine) * (million * u) <= (m * u) * 1) by (nonlinear_arith)
            requires
                m >= (cap * million + 1) * u,
                above == cap * 0x10_0000 + 1,
                u == 0x10_0000 * fine,
                million == 1_000_000,
                fine > 0,
        {
            assert((cap * million + 1) * u == (cap * million + 1) * (0x10_0000 * fine));
            assert((above * fine) * million <= (cap * million + 1) * (0x10_0000 * fine));
        }
        rounding::lemma_round_monotone(above * fine, 1, m * u, million * u);
        rounding::lemma_representable(above, 1054);
        assert(quotient >= above * fine);
        assert(above * fine > cap * u) by (nonlinear_arith)
            requires
                above == cap * 0x10_0000 + 1,
                u == 0x10_0000 * fine,
                fine > 0,
        ;
    }
}

/// The whole steps of a rank that the fraction `hundredths` leads to among
/// `n` steps, where `significand` and `lack` describe the rounded fraction.
proof fn lemma_exact_rank(n: nat, hundredths: nat, significand: nat, lack: nat)
    requires
        n < 0x2000_0000_0000,
        50 <= hundredths <= 99,
        100 * significand + lack == hundredths * 0x20_0000_0000_0000,
        2 * lack * 0x20_0000_0000_0000 < 100 * significand,
        lack <= 40,
    ensures
        (rounding::round_quotient(n * significand, 1) + 0x10_0000_0000_0000)
            / 0x20_0000_0000_0000 == (2 * n * hundredths + 100) / 200,
{
    let c = n * significand;
    let r = (2 * n * hundredths + 100) / 200;
    let y = rounding::round_quotient(c, 1);
    let whole = 0x20_0000_0000_0000nat;
    let half = 0x10_0000_0000_0000nat;
    let nh = n * hundredths;
    assert(2 * n * hundredths == 2 * nh) by (nonlinear_arith)
        requires
            nh == n * hundredths,
    ;
    assert(100 * c + lack * n == nh * whole) by (nonlinear_arith)
        requires
            100 * significand + lack == hundredths * whole,
            c == n * significand,
            nh == n * hundredths,
    ;
    assert(lack * n <= 40 * n) by (nonlinear_arith)
        requires
            lack <= 40,
    ;
    assert(nh <= 99 * n) by (nonlinear_arith)
        requires
            hundredths <= 99,
            nh == n * hundredths,
    ;
    lemma2_to64();
    lemma2_to64_rest();
    // Below the next whole rank.
    assert(nh <= 100 * r + 49);
    let below = ((2 * r + 1) * 64 - 1) as nat;
    assert(c <= below * 0x4000_0000_0000);
    rounding::lemma_round_monotone(c, 1, below * pow2(46), 1);
    rounding::lemma_representable(below, 46);
    assert(y <= below * 0x4000_0000_0000);
    assert(y + half < whole * (r + 1));
    // At or above this one.
    if r > 0 {
        let edge = (2 * r - 1) as nat;
        if nh >= 100 * r - 49 {
            assert(c >= edge * half);
            rounding::lemma_round_monotone(edge * pow2(52), 1, c, 1);
            rounding::lemma_representable(edge, 52);
            assert(y >= edge * half);
        } else {
            assert(nh == 100 * r - 50);
            assert(100 * c + lack * n == 100 * (edge * half)) by (nonlinear_arith)
                requires
                    100 * c + lack * n == nh * whole,
                    nh == 100 * r - 50,
                    whole == 2 * half,
                    edge == 2 * r - 1,
            ;
            lemma_tie_rounds_up(c, edge, n, significand, lack);
        }
    }
    assert(y + half >= whole * r);
    lemma_fundamental_div_mod_converse(
        (y + half) as int,
        whole as int,
        r as int,
        (y + half - whole * r) as int,
    );
}

/// A number that lacks little to a multiple of 2^52 is rounded to it.
pub proof fn lemma_tie_rounds_up(c: nat, edge: nat, n: nat, significand: nat, lack: nat)
    requires
        c == n * significand,
        100 * c + lack * n == 100 * (edge * 0x10_0000_0000_0000),
        2 * lack * 0x20_0000_0000_0000 < 100 * significand,
        edge < 0x8000_0000_0000,
    ensures
        rounding::round_quotient(c, 1) >= edge * 0x10_0000_0000_0000,
{
    lemma2_to64();
    lemma2_to64_rest();
    let t = edge * 0x10_0000_0000_0000;
    if n == 0 || lack == 0 {
        assert(c == t) by (nonlinear_arith)
            requires
                100 * c + lack * n == 100 * t,
                n == 0 || lack == 0,
        ;
        rounding::lemma_representable(edge, 52);
    } else {
        let k = rounding::excess(c);
        rounding::lemma_excess_bounds(c);
        lemma_pow2_pos(k);
        let p = pow2(k);
        assert(c as int / 1 == c);
        assert(1 * p == p);
        if k > 52 {
            lemma_pow2_strictly_increases(52, k);
            assert(false);
        }
        lemma_pow2_adds((52 - k) as nat, k);
        let q = pow2((52 - k) as nat);
        let count = edge * q;
        assert(t == count * p) by (nonlinear_arith)
            requires
                t == edge * 0x10_0000_0000_0000,
                0x10_0000_0000_0000 == q * p,
                count == edge * q,
        ;
        // The gap is less than half a step.
        let gap = (t - c) as nat;
        assert(100 * gap == lack * n);
        assert(2 * gap < p) by (nonlinear_arith)
            requires
                100 * gap == lack * n,
                c == n * significand,
                c < 0x20_0000_0000_0000 * p,
                2 * lack * 0x20_0000_0000_0000 < 100 * significand,
                n > 0,
        {
            assert((2 * lack * 0x20_0000_0000_0000) * n < (100 * significand) * n);
            assert((2 * lack * 0x20_0000_0000_0000) * n == (2 * (lack * n)) * 0x20_0000_0000_0000);
            assert((100 * significand) * n == 100 * c);
        }
        if gap == 0 {
            rounding::lemma_representable(edge, 52);
        } else {
            assert(c == (count - 1) * p + (p - gap)) by (nonlinear_arith)
                requires
                    c == count * p - gap,
            ;
            assert(count > 0) by (nonlinear_arith)
                requires
                    t == count * p,
                    t > 0,
            ;
            lemma_fundamental_div_mod_converse(
                c as int,
                p as int,
                count - 1,
                p - gap,
            );
        }
    }
}

/// Up to 2^45 samples a percentile stands exactly at the nearest rank: the
/// whole number nearest to the fraction of the steps from the first sample to
/// the last, halves up.
pub proof fn law_percentiles_stand_at_nearest_rank(len: nat, hundredths: nat)
    requires
        0 < len <= 0x2000_0000_0000,
        hundredths == 50 || hundredths == 95 || hundredths == 99,
    ensures
        rank(len, fraction(hundredths)) == (2 * (len - 1) * hundredths + 100) / 200,
{
    let u = binary64::unit();
    let n = (len - 1) as nat;
    let whole = 0x20_0000_0000_0000nat;
    let significand = (hundredths * whole / 100) as nat;
    let lack = (hundredths * whole % 100) as nat;
    lemma2_to64();
    lemma2_to64_rest();
    lemma_pow2_pos(1074);
    lemma_pow2_pos(1021);
    lemma_pow2_adds(53, 1021);
    let fine = pow2(1021);
    assert(u == whole * fine);
    lemma_steps(len);
    // The rounded fraction.
    assert(rounding::round_quotient(hundredths * u, 100) == significand * fine) by {
        let q = (hundredths * u) / 100;
        let h = hundredths * whole;
        assert(hundredths * u == h * fine) by (nonlinear_arith)
            requires
                u == whole * fine,
                h == hundredths * whole,
        ;
        lemma_fundamental_div_mod((hundredths * u) as int, 100);
        assert(h * fine <= 99 * (whole * fine)) by (nonlinear_arith)
            requires
                h <= 99 * whole,
                fine > 0,
        ;
        assert(whole * fine > 0) by (nonlinear_arith)
            requires
                whole > 0,
                fine > 0,
        ;
        assert(q < whole * fine);
        assert(q >= 0x10_0000_0000_0000 * fine) by (nonlinear_arith)
            requires
                100 * q + 99 >= h * fine,
                h >= 50 * whole,
                whole == 2 * 0x10_0000_0000_0000,
                fine > 0,
        ;
        rounding::lemma_excess_unique(q, 1021);
        rounding::lemma_nearest_even_scaled(h, 100, fine);
        assert(rounding::nearest_even(h, 100) == significand);
    }
    // The product with the number of steps.
    let c = n * significand;
    assert((n * u) * (significand * fine) * 1 == (c * fine) * u) by (nonlinear_arith)
        requires
            c == n * significand,
    ;
    rounding::lemma_round_same_value((n * u) * (significand * fine), u, c * fine, 1);
    rounding::lemma_round_shifted(c, 1021);
    let y = rounding::round_quotient(c, 1);
    lemma_exact_rank(n, hundredths, significand, lack);
    let index = (2 * n * hundredths + 100) / 200;
    assert(2 * n * hundredths <= 198 * n) by (nonlinear_arith)
        requires
            hundredths <= 99,
    ;
    assert(index <= n);
    // From the rounded product to the index.
    let product = y * fine;
    assert(y < whole * (n + 1));
    assert(product < pow2(2098)) by {
        lemma_pow2_adds(46, 1074);
        lemma_pow2_strictly_increases(1120, 2098);
        assert(y * fine <= (whole * (n + 1)) * fine) by (nonlinear_arith)
            requires
                y < whole * (n + 1),
        ;
        assert((whole * (n + 1)) * fine == (n + 1) * u) by (nonlinear_arith)
            requires
                u == whole * fine,
        ;
        assert((n + 1) * u <= 0x4000_0000_0000 * u) by (nonlinear_arith)
            requires
                n + 1 <= 0x4000_0000_0000,
        ;
    }
    assert(2 * product + u == (2 * y + whole) * fine) by (nonlinear_arith)
        requires
            product == y * fine,
            u == whole * fine,
    ;
    assert(2 * u == (2 * whole) * fine) by (nonlinear_arith)
        requires
            u == whole * fine,
    ;
    rounding::lemma_div_scaled(2 * y + whole, 2 * whole, fine);
    lemma_div_is_halved(y, whole);
    assert((2 * product + u) / (2 * u) == index);
    lemma_pow2_strictly_increases(1074, 2098);
    assert(significand * fine <= u) by (nonlinear_arith)
        requires
            significand <= whole,
            u == whole * fine,
    ;
    assert(fraction(hundredths) == (binary64::Value::Finite {
        negative: false,
        magnitude: significand * fine,
    }));
    assert(binary64::Value::of(len).minus(binary64::Value::of(1)).times(fraction(hundredths)) == (
    binary64::Value::Finite { negative: false, magnitude: product }));
}

proof fn lemma_div_is_halved(y: nat, whole: nat)
    requires
        whole == 0x20_0000_0000_0000,
    ensures
        (2 * y + whole) / (2 * whole) == (y + 0x10_0000_0000_0000) / whole,
{
    assert(2 * whole == 0x40_0000_0000_0000);
    assert((2 * y + 0x20_0000_0000_0000) / 0x40_0000_0000_0000 == (y + 0x10_0000_0000_0000)
        / 0x20_0000_0000_0000);
}

/// The share of answers is the number nearest to the answered messages over the
/// sent ones, and zero where none was sent.
pub proof fn law_delivery_is_answered_over_sent(acked: nat, sent: nat)
    requires
        acked <= rounding::SIGNIFICAND_LIMIT,
        sent <= rounding::SIGNIFICAND_LIMIT,
    ensures
        sent > 0 ==> delivery_value(acked, sent) == binary64::Value::ratio(acked, sent),
        sent == 0 ==> delivery_value(acked, sent) == binary64::Value::of(0),
{
    if sent > 0 {
        binary64::law_quotient_is_nearest(acked, sent);
    }
}

/// One more answer does not lower the share of answers, and one more message
/// does not raise it.
pub proof fn law_delivery_grows_with_answers(acked: nat, more: nat, sent: nat, longer: nat)
    requires
        acked <= more <= rounding::SIGNIFICAND_LIMIT,
        0 < sent <= longer <= rounding::SIGNIFICAND_LIMIT,
    ensures
        !delivery_value(more, sent).less(delivery_value(acked, sent)),
        !delivery_value(acked, sent).less(delivery_value(acked, longer)),
{
    law_delivery_is_answered_over_sent(acked, sent);
    law_delivery_is_answered_over_sent(more, sent);
    law_delivery_is_answered_over_sent(acked, longer);
    assert(acked * sent <= more * sent && acked * sent <= acked * longer) by (nonlinear_arith)
        requires
            acked <= more,
            sent <= longer,
    ;
    binary64::law_ratio_keeps_order(acked, sent, more, sent);
    binary64::law_ratio_keeps_order(acked, longer, acked, sent);
}

/// The percentiles of up to 2^45 samples are those at the nearest ranks of the
/// samples in ascending order; without samples they are zero.
pub proof fn law_percentiles_are_the_samples_at_their_rank(
    samples: Seq<u128>,
    sorted: Seq<u128>,
    r: Percentiles,
)
    requires
        percentiles_of(samples, r),
        samples.len() <= 0x2000_0000_0000,
        forall|i: int, j: int| 0 <= i <= j < sorted.len() ==> sorted[i] <= sorted[j],
        sorted.to_multiset() == samples.to_multiset(),
    ensures
        r.count == samples.len(),
        samples.len() == 0 ==> r.p50 == 0 && r.p95 == 0 && r.p99 == 0,
        samples.len() > 0 ==> {
            let steps = samples.len() - 1;
            &&& r.p50 == sorted[(steps * 50 + 50) / 100]
            &&& r.p95 == sorted[(steps * 95 + 50) / 100]
            &&& r.p99 == sorted[(steps * 99 + 50) / 100]
        },
{
    samples.to_multiset_ensures();
    sorted.to_multiset_ensures();
    lemma_in_order(samples, sorted);
    if samples.len() > 0 {
        law_percentiles_stand_at_nearest_rank(samples.len(), 50);
        law_percentiles_stand_at_nearest_rank(samples.len(), 95);
        law_percentiles_stand_at_nearest_rank(samples.len(), 99);
    }
}

/// A percentile takes the first sample for a fraction of zero and the last for
/// a fraction of one, a larger fraction takes no earlier sample, and every
/// fraction takes one.
pub proof fn law_rank_grows_with_the_fraction(len: nat, a: nat, b: nat)
    requires
        0 < len <= rounding::SIGNIFICAND_LIMIT,
        a <= b,
    ensures
        ({
            let p = binary64::Value::Finite { negative: false, magnitude: a };
            let q = binary64::Value::Finite { negative: false, magnitude: b };
            rank(len, p) <= rank(len, q) <= len - 1
        }),
        rank(len, binary64::Value::of(0)) == 0,
        rank(len, binary64::Value::of(1)) == len - 1,
        rank(len, binary64::Value::Nan) == 0,
{
    let u = binary64::unit();
    let n = (len - 1) as nat;
    lemma_pow2_pos(1074);
    lemma_steps(len);
    binary64::lemma_of_exact(0);
    binary64::lemma_of_exact(1);
    let x = n * u;
    let pa = rounding::round_quotient(x * a, u);
    let pb = rounding::round_quotient(x * b, u);
    assert((x * a) * u <= (x * b) * u) by (nonlinear_arith)
        requires
            a <= b,
    ;
    rounding::lemma_round_monotone(x * a, u, x * b, u);
    lemma_div_is_ordered((2 * pa + u) as int, (2 * pb + u) as int, (2 * u) as int);
    // The ends.
    assert(x * 0 == 0);
    rounding::lemma_representable(0, 0);
    assert(0 * pow2(0) == 0);
    rounding::lemma_round_same_value(0, u, 0, 1);
    lemma_small_mod(u, 2 * u);
    lemma_fundamental_div_mod_converse(u as int, (2 * u) as int, 0, u as int);
    lemma_pow2_pos(2098);
    assert((x * (1 * u)) * 1 == x * u) by (nonlinear_arith);
    rounding::lemma_round_same_value(x * (1 * u), u, x, 1);
    rounding::lemma_representable(n, 1074);
    binary64::lemma_of_exact(n);
    assert(2 * x + u == n * (2 * u) + u) by (nonlinear_arith)
        requires
            x == n * u,
    ;
    lemma_fundamental_div_mod_converse((2 * x + u) as int, (2 * u) as int, n as int, u as int);
}

/// Milliseconds are the number nearest to the nanoseconds over a million.
pub proof fn law_milliseconds_are_nanoseconds_over_a_million(ns: nat)
    requires
        ns <= rounding::SIGNIFICAND_LIMIT,
    ensures
        millis_value(ns) == binary64::Value::ratio(ns, 1_000_000),
{
    binary64::law_quotient_is_nearest(ns, 1_000_000);
}

/// A latency that keeps a cap keeps every larger one, and so does every
/// shorter latency; without a cap every latency passes.
pub proof fn law_shorter_latencies_keep_the_cap(ns: nat, longer: nat, cap_ms: nat, looser: nat)
    requires
        ns <= longer <= u128::MAX,
        0 < cap_ms <= looser <= u64::MAX,
    ensures
        within_cap(longer, cap_ms) ==> within_cap(ns, cap_ms),
        within_cap(ns, cap_ms) ==> within_cap(ns, looser),
        within_cap(ns, 0),
{
    let u = binary64::unit();
    lemma_pow2_pos(1074);
    binary64::lemma_of_exact(1_000_000);
    binary64::lemma_of_finite(ns);
    binary64::lemma_of_finite(longer);
    binary64::lemma_of_finite(cap_ms);
    binary64::lemma_of_finite(looser);
    binary64::lemma_of_monotone(ns, longer);
    binary64::lemma_of_monotone(cap_ms, looser);
    let a = rounding::round_quotient(ns * u, 1);
    let b = rounding::round_quotient(longer * u, 1);
    let million = 1_000_000 * u;
    assert((a * u) * million <= (b * u) * million) by (nonlinear_arith)
        requires
            a <= b,
    ;
    rounding::lemma_round_monotone(a * u, million, b * u, million);
    binary64::law_order_is_total(
        binary64::Value::of(cap_ms),
        millis_value(ns),
        millis_value(longer),
    );
    binary64::law_order_is_total(
        binary64::Value::of(cap_ms),
        binary64::Value::of(looser),
        millis_value(ns),
    );
}

/// The percentiles that are computed are the samples at the nearest ranks, in
/// whatever order the samples come.
pub proof fn law_computed_percentiles(samples: Vec<u128>, sorted: Seq<u128>, r: Percentiles)
    requires
        call_ensures(percentiles, (samples,), r),
        0 < sorted.len() <= 0x2000_0000_0000,
        forall|i: int, j: int| 0 <= i <= j < sorted.len() ==> sorted[i] <= sorted[j],
        sorted.to_multiset() == samples@.to_multiset(),
    ensures
        r.count == sorted.len(),
        r.p50 == sorted[((sorted.len() - 1) * 50 + 50) / 100],
        r.p95 == sorted[((sorted.len() - 1) * 95 + 50) / 100],
        r.p99 == sorted[((sorted.len() - 1) * 99 + 50) / 100],
{
    samples@.to_multiset_ensures();
    sorted.to_multiset_ensures();
    law_percentiles_are_the_samples_at_their_rank(samples@, sorted, r);
}

/// The share that is computed is the number nearest to the answers over the
/// messages, and a latency is held against a cap to the nanosecond.
pub proof fn law_computed_shares_and_caps(
    acked: usize,
    sent: usize,
    share: Binary64,
    ns: u128,
    cap_ms: u64,
    kept: bool,
)
    requires
        call_ensures(delivery, (acked, sent), share),
        call_ensures(keeps_cap, (ns, cap_ms), kept),
        acked <= rounding::SIGNIFICAND_LIMIT,
        sent <= rounding::SIGNIFICAND_LIMIT,
        cap_ms <= u32::MAX,
    ensures
        sent > 0 ==> share@ == binary64::Value::ratio(acked as nat, sent as nat),
        sent == 0 ==> share@ == binary64::Value::of(0),
        kept <==> cap_ms == 0 || ns <= cap_ms * 1_000_000,
{
    law_delivery_is_answered_over_sent(acked as nat, sent as nat);
    law_cap_is_exact(ns, cap_ms);
}

} // verus!
