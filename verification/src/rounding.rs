//! Rounding of exact quotients to 53 significant bits, ties to even.
//!
//! Numbers are natural numbers of *units*. The spacing of representable
//! numbers is one unit below 2^53 and doubles with every further bit, which
//! is the spacing of the IEEE 754 binary64 format when one unit is its
//! smallest positive number.

use vstd::arithmetic::div_mod::*;
use vstd::arithmetic::mul::*;
use vstd::arithmetic::power2::*;
use vstd::prelude::*;

verus! {

/// One more than the largest significand: 2^53.
pub const SIGNIFICAND_LIMIT: u64 = 0x20_0000_0000_0000;

/// The smallest significand with its leading bit set: 2^52.
pub const LEADING_BIT: u64 = 0x10_0000_0000_0000;

/// The number of low bits of `q` that do not fit in 53 bits.
pub open spec fn excess(q: nat) -> nat
    decreases q,
{
    if q < SIGNIFICAND_LIMIT {
        0
    } else {
        1 + excess(q / 2)
    }
}

/// The quotient `num / den` rounded to the nearest multiple of `2^k`, counted
/// in multiples of `2^k`; a tie goes to the even count.
pub open spec fn nearest_count(num: nat, den: nat, k: nat) -> nat {
    nearest_even(num, den * pow2(k))
}

/// The integer nearest to `num / step`; a tie goes to the even one.
pub open spec fn nearest_even(num: nat, step: nat) -> nat {
    let f = num / step;
    let r = num % step;
    if 2 * r > step || (2 * r == step && f % 2 == 1) {
        f + 1
    } else {
        f
    }
}

/// The representable number nearest to `num / den`, in units.
pub open spec fn round_quotient(num: nat, den: nat) -> nat {
    let k = excess(num / den);
    nearest_count(num, den, k) * pow2(k)
}

pub proof fn lemma_excess_bounds(q: nat)
    ensures
        q < SIGNIFICAND_LIMIT * pow2(excess(q)),
        excess(q) > 0 ==> LEADING_BIT * pow2(excess(q)) <= q,
    decreases q,
{
    lemma2_to64();
    if q >= SIGNIFICAND_LIMIT {
        let h = q / 2;
        lemma_excess_bounds(h);
        lemma_pow2_unfold((excess(h) + 1) as nat);
        let p = pow2(excess(h));
        assert(pow2(excess(q)) == 2 * p);
        assert(SIGNIFICAND_LIMIT * (2 * p) == 2 * (SIGNIFICAND_LIMIT * p)) by (nonlinear_arith);
        assert(LEADING_BIT * (2 * p) == 2 * (LEADING_BIT * p)) by (nonlinear_arith);
    }
}

/// `excess` is the only exponent that brings `q` into the significand range.
pub proof fn lemma_excess_unique(q: nat, k: nat)
    requires
        q < SIGNIFICAND_LIMIT * pow2(k),
        k > 0 ==> LEADING_BIT * pow2(k) <= q,
    ensures
        excess(q) == k,
    decreases k,
{
    lemma2_to64();
    if k > 0 {
        let p = pow2((k - 1) as nat);
        lemma_pow2_unfold(k);
        lemma_pow2_pos((k - 1) as nat);
        assert(pow2(k) == 2 * p);
        assert(SIGNIFICAND_LIMIT * (2 * p) == 2 * (SIGNIFICAND_LIMIT * p)) by (nonlinear_arith);
        assert(LEADING_BIT * (2 * p) == 2 * (LEADING_BIT * p)) by (nonlinear_arith);
        assert(LEADING_BIT * (2 * p) == SIGNIFICAND_LIMIT * p) by (nonlinear_arith);
        assert(SIGNIFICAND_LIMIT * p >= SIGNIFICAND_LIMIT) by (nonlinear_arith)
            requires
                p >= 1,
        ;
        lemma_excess_unique(q / 2, (k - 1) as nat);
    }
}

/// Scaling numerator and denominator alike changes nothing.
pub proof fn lemma_round_scaled(num: nat, den: nat, c: nat)
    requires
        den > 0,
        c > 0,
    ensures
        round_quotient(num * c, den * c) == round_quotient(num, den),
        den * c > 0,
{
    assert(den * c > 0) by (nonlinear_arith)
        requires
            den > 0,
            c > 0,
    ;
    lemma_div_scaled(num, den, c);
    let k = excess(num / den);
    let p = pow2(k);
    lemma_pow2_pos(k);
    let step = den * p;
    assert(step > 0) by (nonlinear_arith)
        requires
            den > 0,
            p > 0,
            step == den * p,
    ;
    assert((den * c) * p == step * c) by (nonlinear_arith)
        requires
            step == den * p,
    ;
    lemma_nearest_even_scaled(num, step, c);
}

pub proof fn lemma_div_scaled(num: nat, den: nat, c: nat)
    requires
        den > 0,
        c > 0,
    ensures
        (num * c) / (den * c) == num / den,
        (num * c) % (den * c) == (num % den) * c,
{
    let f = (num / den) as int;
    let r = (num % den) as int;
    lemma_fundamental_div_mod(num as int, den as int);
    assert(num * c == f * (den * c) + r * c) by (nonlinear_arith)
        requires
            num == den * f + r,
    ;
    assert(0 <= r * c < den * c) by (nonlinear_arith)
        requires
            0 <= r < den,
            c > 0,
    ;
    lemma_fundamental_div_mod_converse((num * c) as int, (den * c) as int, f, r * c);
}

pub proof fn lemma_nearest_even_scaled(num: nat, step: nat, c: nat)
    requires
        step > 0,
        c > 0,
    ensures
        nearest_even(num * c, step * c) == nearest_even(num, step),
{
    lemma_div_scaled(num, step, c);
    let r = num % step;
    assert(2 * (r * c) > step * c <==> 2 * r > step) by (nonlinear_arith)
        requires
            c > 0,
    ;
    assert(2 * (r * c) == step * c <==> 2 * r == step) by (nonlinear_arith)
        requires
            c > 0,
    ;
}

/// Rounding depends on the value of the quotient only.
pub proof fn lemma_round_same_value(a: nat, b: nat, c: nat, d: nat)
    requires
        b > 0,
        d > 0,
        a * d == c * b,
    ensures
        round_quotient(a, b) == round_quotient(c, d),
{
    lemma_round_scaled(a, b, d);
    lemma_round_scaled(c, d, b);
    assert(b * d == d * b) by (nonlinear_arith);
}

/// The step of the rounding, for a quotient split at bit `k`: `n` is split
/// into `f` and `rem` at that bit, and `rho / w` is what lies below `n`.
pub proof fn lemma_round_split(
    n: nat,
    w: nat,
    rho: nat,
    k: nat,
    pos: nat,
    neg: nat,
    u: nat,
)
    requires
        w > 0,
        rho < w,
        neg + u == k + pos,
        n / pow2(k) < SIGNIFICAND_LIMIT,
        u > 0 ==> n / pow2(k) >= LEADING_BIT,
    ensures
        ({
            let num = (n * w + rho) * pow2(pos);
            let den = w * pow2(neg);
            let f = n / pow2(k);
            let rem = n % pow2(k);
            let up = 2 * (rem * w + rho) > w * pow2(k) || (2 * (rem * w + rho) == w * pow2(k) && f
                % 2 == 1);
            round_quotient(num, den) == (if up {
                f + 1
            } else {
                f
            }) * pow2(u)
        }),
{
    let a = n * w + rho;
    let pk = pow2(k);
    let pp = pow2(pos);
    let pn = pow2(neg);
    let pu = pow2(u);
    lemma_pow2_pos(k);
    lemma_pow2_pos(pos);
    lemma_pow2_pos(neg);
    lemma_pow2_pos(u);
    lemma_pow2_adds(neg, u);
    lemma_pow2_adds(k, pos);
    assert(pn * pu == pk * pp);
    let num = a * pp;
    let den = w * pn;
    let f = n / pk;
    let rem = n % pk;
    let low = rem * w + rho;
    let whole = w * pk;
    lemma_fundamental_div_mod(n as int, pk as int);
    assert(a == f * whole + low) by (nonlinear_arith)
        requires
            a == n * w + rho,
            n == pk * f + rem,
            low == rem * w + rho,
            whole == w * pk,
    ;
    assert(low < whole) by (nonlinear_arith)
        requires
            rem < pk,
            rho < w,
            low == rem * w + rho,
            whole == w * pk,
    ;
    let step = den * pu;
    assert(step == whole * pp) by (nonlinear_arith)
        requires
            step == den * pu,
            den == w * pn,
            pn * pu == pk * pp,
            whole == w * pk,
    ;
    assert(den > 0) by (nonlinear_arith)
        requires
            den == w * pn,
            w > 0,
            pn > 0,
    ;
    // The counts: `a` against `whole`, then scaled by `2^pos`.
    lemma_fundamental_div_mod_converse(a as int, whole as int, f as int, low as int);
    lemma_nearest_even_scaled(a, whole, pp);
    // The exponent.
    let q = num / den;
    assert(num == f * step + low * pp && low * pp < step) by (nonlinear_arith)
        requires
            num == a * pp,
            a == f * whole + low,
            step == whole * pp,
            low < whole,
            pp > 0,
    ;
    assert(f * pu <= q && q < (f + 1) * pu) by {
        lemma_fundamental_div_mod(num as int, den as int);
        let r = num % den;
        assert(f * pu <= q && q < (f + 1) * pu) by (nonlinear_arith)
            requires
                num == den * q + r,
                r < den,
                num == f * step + low * pp,
                low * pp < step,
                step == den * pu,
                den > 0,
        ;
    }
    assert(q < SIGNIFICAND_LIMIT * pu) by (nonlinear_arith)
        requires
            q < (f + 1) * pu,
            f + 1 <= SIGNIFICAND_LIMIT,
    ;
    if u > 0 {
        assert(LEADING_BIT * pu <= q) by (nonlinear_arith)
            requires
                f * pu <= q,
                f >= LEADING_BIT,
        ;
    }
    lemma_excess_unique(q, u);
}

/// What needs no more than 53 bits is representable.
pub proof fn lemma_representable(s: nat, u: nat)
    requires
        s <= SIGNIFICAND_LIMIT,
    ensures
        round_quotient(s * pow2(u), 1) == s * pow2(u),
{
    let m = s * pow2(u);
    let k = excess(m);
    lemma_excess_bounds(m);
    lemma_pow2_pos(u);
    lemma_pow2_pos(k);
    assert(m as int / 1 == m);
    if k > u {
        lemma_pow2_unfold(k);
        if k - 1 > u {
            lemma_pow2_strictly_increases(u, (k - 1) as nat);
        }
        let h = pow2((k - 1) as nat);
        if s == SIGNIFICAND_LIMIT && k == u + 1 {
            // The next power of two: one bit, at exponent `k`.
            assert(m == LEADING_BIT * pow2(k)) by (nonlinear_arith)
                requires
                    m == SIGNIFICAND_LIMIT * pow2(u),
                    pow2(k) == 2 * pow2(u),
            ;
            lemma_exact_count(m, LEADING_BIT as nat, k);
        } else {
            assert(false) by {
                if k == u + 1 {
                    assert(m < SIGNIFICAND_LIMIT * pow2(u)) by (nonlinear_arith)
                        requires
                            m == s * pow2(u),
                            s < SIGNIFICAND_LIMIT,
                            pow2(u) > 0,
                    ;
                    assert(LEADING_BIT * (2 * h) == SIGNIFICAND_LIMIT * h) by (nonlinear_arith);
                } else {
                    assert(h >= 2 * pow2(u)) by {
                        lemma_pow2_unfold((u + 1) as nat);
                        if k - 1 > u + 1 {
                            lemma_pow2_strictly_increases((u + 1) as nat, (k - 1) as nat);
                        }
                    }
                    assert(LEADING_BIT * (2 * h) > m) by (nonlinear_arith)
                        requires
                            m == s * pow2(u),
                            s <= SIGNIFICAND_LIMIT,
                            h >= 2 * pow2(u),
                            pow2(u) > 0,
                    ;
                }
            }
        }
    } else {
        lemma_pow2_adds((u - k) as nat, k);
        let c = s * pow2((u - k) as nat);
        assert(m == c * pow2(k)) by (nonlinear_arith)
            requires
                m == s * pow2(u),
                pow2(u) == pow2((u - k) as nat) * pow2(k),
                c == s * pow2((u - k) as nat),
        ;
        lemma_exact_count(m, c, k);
    }
}

proof fn lemma_exact_count(m: nat, c: nat, k: nat)
    requires
        m == c * pow2(k),
        k == excess(m),
    ensures
        round_quotient(m, 1) == m,
{
    lemma_pow2_pos(k);
    assert(m as int / 1 == m);
    lemma_fundamental_div_mod_converse(m as int, pow2(k) as int, c as int, 0);
    assert(1 * pow2(k) == pow2(k));
}

proof fn lemma_excess_monotone(q1: nat, q2: nat)
    requires
        q1 <= q2,
    ensures
        excess(q1) <= excess(q2),
{
    lemma_excess_bounds(q1);
    lemma_excess_bounds(q2);
    let k1 = excess(q1);
    let k2 = excess(q2);
    if k1 > k2 {
        lemma_pow2_unfold(k1);
        let p = pow2((k1 - 1) as nat);
        if k1 - 1 > k2 {
            lemma_pow2_strictly_increases(k2, (k1 - 1) as nat);
        }
        let p2 = pow2(k2);
        assert(LEADING_BIT * (2 * p) >= SIGNIFICAND_LIMIT * p2) by (nonlinear_arith)
            requires
                p >= p2,
        ;
    }
}

proof fn lemma_nearest_even_monotone(n1: nat, n2: nat, step: nat)
    requires
        n1 <= n2,
        step > 0,
    ensures
        nearest_even(n1, step) <= nearest_even(n2, step),
{
    lemma_div_is_ordered(n1 as int, n2 as int, step as int);
    lemma_fundamental_div_mod(n1 as int, step as int);
    lemma_fundamental_div_mod(n2 as int, step as int);
}

proof fn lemma_round_monotone_over(n1: nat, n2: nat, den: nat)
    requires
        n1 <= n2,
        den > 0,
    ensures
        round_quotient(n1, den) <= round_quotient(n2, den),
{
    let q1 = n1 / den;
    let q2 = n2 / den;
    lemma_div_is_ordered(n1 as int, n2 as int, den as int);
    lemma_excess_monotone(q1, q2);
    lemma_excess_bounds(q1);
    lemma_excess_bounds(q2);
    let k1 = excess(q1);
    let k2 = excess(q2);
    let p1 = pow2(k1);
    let p2 = pow2(k2);
    lemma_pow2_pos(k1);
    lemma_pow2_pos(k2);
    assert(den * p1 > 0 && den * p2 > 0) by (nonlinear_arith)
        requires
            den > 0,
            p1 > 0,
            p2 > 0,
    ;
    let c1 = nearest_even(n1, den * p1);
    let c2 = nearest_even(n2, den * p2);
    if k1 == k2 {
        lemma_nearest_even_monotone(n1, n2, den * p1);
        assert(c1 * p1 <= c2 * p2) by (nonlinear_arith)
            requires
                c1 <= c2,
                p1 == p2,
        ;
    } else {
        lemma_div_denominator(n1 as int, den as int, p1 as int);
        lemma_div_denominator(n2 as int, den as int, p2 as int);
        let f1 = q1 / p1;
        let f2 = q2 / p2;
        lemma_fundamental_div_mod(q1 as int, p1 as int);
        lemma_fundamental_div_mod(q2 as int, p2 as int);
        assert(f1 < SIGNIFICAND_LIMIT) by (nonlinear_arith)
            requires
                p1 * f1 <= q1,
                q1 < SIGNIFICAND_LIMIT * p1,
                p1 > 0,
        ;
        assert(f2 >= LEADING_BIT) by (nonlinear_arith)
            requires
                p2 * f2 + p2 > q2,
                q2 >= LEADING_BIT * p2,
                p2 > 0,
        ;
        lemma_pow2_unfold(k2);
        let h = pow2((k2 - 1) as nat);
        if k2 - 1 > k1 {
            lemma_pow2_strictly_increases(k1, (k2 - 1) as nat);
        }
        assert(c1 * p1 <= c2 * p2) by (nonlinear_arith)
            requires
                c1 <= 0x20_0000_0000_0000,
                c2 >= 0x10_0000_0000_0000,
                p2 == 2 * h,
                h >= p1,
                p1 > 0,
        ;
    }
}

/// Rounding keeps the order: what is not larger does not become larger.
pub proof fn lemma_round_monotone(a: nat, b: nat, c: nat, d: nat)
    requires
        b > 0,
        d > 0,
        a * d <= c * b,
    ensures
        round_quotient(a, b) <= round_quotient(c, d),
{
    lemma_round_scaled(a, b, d);
    lemma_round_scaled(c, d, b);
    assert(b * d == d * b) by (nonlinear_arith);
    lemma_round_monotone_over(a * d, c * b, b * d);
}

/// Doubling a whole number doubles what it is rounded to.
pub proof fn lemma_round_shifted(c: nat, u: nat)
    ensures
        round_quotient(c * pow2(u), 1) == round_quotient(c, 1) * pow2(u),
{
    lemma_pow2_pos(u);
    lemma2_to64();
    let p = pow2(u);
    if c <= SIGNIFICAND_LIMIT {
        lemma_representable(c, u);
        lemma_representable(c, 0);
        assert(c * pow2(0) == c);
    } else {
        let k = excess(c);
        let q = pow2(k);
        lemma_excess_bounds(c);
        lemma_pow2_pos(k);
        lemma_pow2_adds(k, u);
        assert(c as int / 1 == c);
        assert((c * p) as int / 1 == c * p);
        assert(c * p < SIGNIFICAND_LIMIT * (q * p)) by (nonlinear_arith)
            requires
                c < SIGNIFICAND_LIMIT * q,
                p > 0,
        ;
        assert(k > 0);
        assert(LEADING_BIT * (q * p) <= c * p) by (nonlinear_arith)
            requires
                LEADING_BIT * q <= c,
                p > 0,
        ;
        lemma_excess_unique(c * p, k + u);
        lemma_nearest_even_scaled(c, q, p);
        assert(1 * pow2(k) == q);
        assert(1 * pow2(k + u) == q * p);
        let n = nearest_even(c, q);
        assert(n * (q * p) == (n * q) * p) by (nonlinear_arith);
    }
}

/// A quotient that reaches a representable number is not rounded below it.
pub proof fn lemma_round_at_least(num: nat, den: nat, s: nat, u: nat)
    requires
        den > 0,
        s <= SIGNIFICAND_LIMIT,
        (s * pow2(u)) * den <= num,
    ensures
        round_quotient(num, den) >= s * pow2(u),
{
    lemma_round_monotone(s * pow2(u), 1, num, den);
    lemma_representable(s, u);
}

/// A quotient that does not exceed a representable number is not rounded above
/// it.
pub proof fn lemma_round_at_most(num: nat, den: nat, s: nat, u: nat)
    requires
        den > 0,
        s <= SIGNIFICAND_LIMIT,
        num <= (s * pow2(u)) * den,
    ensures
        round_quotient(num, den) <= s * pow2(u),
{
    lemma_round_monotone(num, den, s * pow2(u), 1);
    lemma_representable(s, u);
}

/// What a quotient is rounded to differs from it by no more than half the
/// spacing of the representable numbers: half a unit where it is below 2^53,
/// and else less than its 2^53th part.
pub proof fn law_rounding_error(num: nat, den: nat)
    requires
        den > 0,
    ensures
        num < SIGNIFICAND_LIMIT * den ==> -(den as int) <= 2 * (round_quotient(num, den) * den
            - num) <= den,
        num >= SIGNIFICAND_LIMIT * den ==> -(num as int) <= SIGNIFICAND_LIMIT * (round_quotient(
            num,
            den,
        ) * den - num) <= num,
{
    let q = num / den;
    let k = excess(q);
    let p = pow2(k);
    lemma_pow2_pos(k);
    lemma_excess_bounds(q);
    let step = den * p;
    assert(step > 0) by (nonlinear_arith)
        requires
            den > 0,
            p > 0,
            step == den * p,
    ;
    lemma_fundamental_div_mod(num as int, step as int);
    lemma_fundamental_div_mod(num as int, den as int);
    let c = nearest_even(num, step);
    let f = num / step;
    let r = num % step;
    assert((c * p) * den == c * step) by (nonlinear_arith)
        requires
            step == den * p,
    ;
    assert(-(step as int) <= 2 * (c * step - num) <= step) by (nonlinear_arith)
        requires
            num == step * f + r,
            0 <= r < step,
            c == f && 2 * r <= step || c == f + 1 && 2 * r >= step,
    ;
    lemma2_to64();
    if num < SIGNIFICAND_LIMIT * den {
        assert(q < SIGNIFICAND_LIMIT) by (nonlinear_arith)
            requires
                den * q <= num,
                num < SIGNIFICAND_LIMIT * den,
                den > 0,
        ;
        assert(k == 0);
        assert(step == den) by (nonlinear_arith)
            requires
                step == den * p,
                p == 1,
        ;
    } else {
        assert(q >= SIGNIFICAND_LIMIT) by (nonlinear_arith)
            requires
                num < den * q + den,
                num >= SIGNIFICAND_LIMIT * den,
                den > 0,
        ;
        assert(k > 0);
        assert(LEADING_BIT * step <= num) by (nonlinear_arith)
            requires
                LEADING_BIT * p <= q,
                den * q <= num,
                step == den * p,
        ;
        let gap = c * step - num;
        assert(-(num as int) <= SIGNIFICAND_LIMIT * gap <= num) by (nonlinear_arith)
            requires
                -(step as int) <= 2 * gap <= step,
                0x10_0000_0000_0000 * step <= num,
                SIGNIFICAND_LIMIT == 0x20_0000_0000_0000,
        ;
    }
}

/// Rounding a rounded quotient again changes nothing.
pub proof fn lemma_rounded_quotient_stays(num: nat, den: nat)
    requires
        den > 0,
    ensures
        round_quotient(round_quotient(num, den), 1) == round_quotient(
            num,
            den,
        ),
{
    let q = num / den;
    let k = excess(q);
    let p = pow2(k);
    lemma_excess_bounds(q);
    lemma_pow2_pos(k);
    let step = den * p;
    assert(step > 0) by (nonlinear_arith)
        requires
            step == den * p,
            den > 0,
            p > 0,
    ;
    lemma_fundamental_div_mod(num as int, den as int);
    lemma_fundamental_div_mod(num as int, step as int);
    let f = num / step;
    assert(f < SIGNIFICAND_LIMIT) by (nonlinear_arith)
        requires
            step * f <= num,
            step == den * p,
            num < den * q + den,
            q < SIGNIFICAND_LIMIT * p,
            den > 0,
            p > 0,
    {
        assert(q + 1 <= SIGNIFICAND_LIMIT * p);
        assert(den * (q + 1) <= den * (SIGNIFICAND_LIMIT * p));
        assert((den * p) * f < (den * p) * SIGNIFICAND_LIMIT);
    }
    lemma_representable(nearest_even(num, step), k);
}

} // verus!
