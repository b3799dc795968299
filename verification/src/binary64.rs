//! IEEE 754 binary64 arithmetic in integers.
//!
//! The tunables of the programs are binary64 numbers, and a verdict compares
//! ratios of counters and times with them. `Binary64` holds such a number by
//! its bit pattern, and computes on it exactly as hardware does: every
//! operation returns the representable number nearest to the exact result,
//! ties to even. A driver converts with `f64::to_bits` and `f64::from_bits`.

use vstd::arithmetic::div_mod::*;
use vstd::arithmetic::mul::*;
use vstd::arithmetic::power2::*;
use vstd::prelude::*;

use crate::rounding;
use crate::rounding::{LEADING_BIT, SIGNIFICAND_LIMIT};

verus! {

/// The number of units (smallest positive numbers) in one, as a power of two.
pub const UNIT_EXPONENT: u32 = 1074;

/// The exponent of the largest finite numbers, with a unit as base.
pub const MAX_EXPONENT: u32 = 2045;

/// 2^63: the weight of the sign bit.
const SIGN_WEIGHT: u64 = 0x8000_0000_0000_0000;

/// What a binary64 number is: not a number, an infinity, or a finite number
/// with a sign and a magnitude in units of 2^-1074.
#[verifier::ext_equal]
pub ghost enum Value {
    Nan,
    Infinite { negative: bool },
    Finite { negative: bool, magnitude: nat },
}

/// The number of units in one.
pub open spec fn unit() -> nat {
    pow2(UNIT_EXPONENT as nat)
}

/// The nearest representable number to `num / den` units, with a sign; an
/// infinity where that exceeds every finite number.
pub open spec fn rounded(negative: bool, num: nat, den: nat) -> Value {
    let magnitude = rounding::round_quotient(num, den);
    if magnitude >= pow2(2098) {
        Value::Infinite { negative }
    } else {
        Value::Finite { negative, magnitude }
    }
}

impl Value {
    /// The number nearest to the natural number `n`.
    pub open spec fn of(n: nat) -> Value {
        rounded(false, n * unit(), 1)
    }

    /// The number nearest to `num / den`.
    pub open spec fn ratio(num: nat, den: nat) -> Value {
        rounded(false, num * unit(), den)
    }

    /// A finite number as a signed count of units.
    pub open spec fn signed(self) -> int {
        match self {
            Value::Finite { negative, magnitude } => if negative {
                -(magnitude as int)
            } else {
                magnitude as int
            },
            _ => 0,
        }
    }

    pub open spec fn negate(self) -> Value {
        match self {
            Value::Nan => Value::Nan,
            Value::Infinite { negative } => Value::Infinite { negative: !negative },
            Value::Finite { negative, magnitude } => Value::Finite {
                negative: !negative,
                magnitude,
            },
        }
    }

    pub open spec fn times(self, other: Value) -> Value {
        match (self, other) {
            (Value::Finite { negative: n1, magnitude: m1 }, Value::Finite {
                negative: n2,
                magnitude: m2,
            }) => rounded(n1 != n2, m1 * m2, unit()),
            (Value::Infinite { negative: n1 }, Value::Infinite { negative: n2 }) =>
                Value::Infinite { negative: n1 != n2 },
            (Value::Infinite { negative: n1 }, Value::Finite { negative: n2, magnitude }) =>
                if magnitude == 0 {
                    Value::Nan
                } else {
                    Value::Infinite { negative: n1 != n2 }
                },
            (Value::Finite { negative: n1, magnitude }, Value::Infinite { negative: n2 }) =>
                if magnitude == 0 {
                    Value::Nan
                } else {
                    Value::Infinite { negative: n1 != n2 }
                },
            _ => Value::Nan,
        }
    }

    pub open spec fn over(self, other: Value) -> Value {
        match (self, other) {
            (Value::Finite { negative: n1, magnitude: m1 }, Value::Finite {
                negative: n2,
                magnitude: m2,
            }) => if m2 == 0 {
                if m1 == 0 {
                    Value::Nan
                } else {
                    Value::Infinite { negative: n1 != n2 }
                }
            } else {
                rounded(n1 != n2, m1 * unit(), m2)
            },
            (Value::Infinite { negative: n1 }, Value::Finite { negative: n2, .. }) =>
                Value::Infinite { negative: n1 != n2 },
            (Value::Finite { negative: n1, .. }, Value::Infinite { negative: n2 }) =>
                Value::Finite { negative: n1 != n2, magnitude: 0 },
            _ => Value::Nan,
        }
    }

    pub open spec fn plus(self, other: Value) -> Value {
        match (self, other) {
            (Value::Finite { negative: n1, .. }, Value::Finite { negative: n2, .. }) => {
                let sum = self.signed() + other.signed();
                if sum == 0 {
                    Value::Finite { negative: n1 && n2, magnitude: 0 }
                } else if sum < 0 {
                    rounded(true, (-sum) as nat, 1)
                } else {
                    rounded(false, sum as nat, 1)
                }
            },
            (Value::Infinite { negative: n1 }, Value::Infinite { negative: n2 }) => if n1 == n2 {
                self
            } else {
                Value::Nan
            },
            (Value::Infinite { .. }, Value::Finite { .. }) => self,
            (Value::Finite { .. }, Value::Infinite { .. }) => other,
            _ => Value::Nan,
        }
    }

    pub open spec fn minus(self, other: Value) -> Value {
        self.plus(other.negate())
    }

    /// The ordering `<`; false where either side is not a number.
    pub open spec fn less(self, other: Value) -> bool {
        match (self, other) {
            (Value::Finite { .. }, Value::Finite { .. }) => self.signed() < other.signed(),
            (Value::Infinite { negative: n1 }, Value::Infinite { negative: n2 }) => n1 && !n2,
            (Value::Infinite { negative }, Value::Finite { .. }) => negative,
            (Value::Finite { .. }, Value::Infinite { negative }) => !negative,
            _ => false,
        }
    }

    /// The whole part, between zero and `max`.
    pub open spec fn truncated(self, max: nat) -> nat {
        match self {
            Value::Finite { negative: false, magnitude } => if magnitude / unit() > max {
                max
            } else {
                magnitude / unit()
            },
            Value::Infinite { negative: false } => max,
            _ => 0,
        }
    }

    /// The nearest whole number, halves away from zero, between zero and `max`.
    pub open spec fn nearest_whole(self, max: nat) -> nat {
        match self {
            Value::Finite { negative: false, magnitude } => {
                let n = (2 * magnitude + unit()) / (2 * unit());
                if n > max {
                    max
                } else {
                    n
                }
            },
            Value::Infinite { negative: false } => max,
            _ => 0,
        }
    }

    /// The smaller of two numbers; the other one where one is not a number.
    pub open spec fn smaller(self, other: Value) -> Value {
        if self is Nan || other.less(self) {
            other
        } else {
            self
        }
    }

    /// The larger of two numbers; the other one where one is not a number.
    pub open spec fn larger(self, other: Value) -> Value {
        if self is Nan || self.less(other) {
            other
        } else {
            self
        }
    }
}

/// A binary64 number, by its bit pattern.
#[derive(Clone, Copy, PartialEq, Eq, Structural, Debug)]
pub struct Binary64 {
    pub bits: u64,
}

impl View for Binary64 {
    type V = Value;

    /// The sign is the top bit, the exponent field the next 11 bits, the
    /// fraction the low 52 bits.
    open spec fn view(&self) -> Value {
        let negative = self.bits >= 0x8000_0000_0000_0000;
        let field = (self.bits / LEADING_BIT) % 2048;
        let fraction = self.bits % LEADING_BIT;
        if field == 2047 {
            if fraction == 0 {
                Value::Infinite { negative }
            } else {
                Value::Nan
            }
        } else if field == 0 {
            Value::Finite { negative, magnitude: fraction as nat }
        } else {
            Value::Finite {
                negative,
                magnitude: ((fraction + LEADING_BIT) * pow2((field - 1) as nat)) as nat,
            }
        }
    }
}

/// A decoded number: a finite one is `significand * 2^exponent` units.
#[derive(Clone, Copy)]
enum Parts {
    Nan,
    Infinite { negative: bool },
    Finite { negative: bool, significand: u64, exponent: u32 },
}

impl Parts {
    spec fn canonical(self) -> bool {
        match self {
            Parts::Finite { significand, exponent, .. } => significand < SIGNIFICAND_LIMIT
                && exponent <= MAX_EXPONENT && (exponent > 0 ==> significand >= LEADING_BIT),
            _ => true,
        }
    }

    spec fn value(self) -> Value {
        match self {
            Parts::Nan => Value::Nan,
            Parts::Infinite { negative } => Value::Infinite { negative },
            Parts::Finite { negative, significand, exponent } => Value::Finite {
                negative,
                magnitude: (significand * pow2(exponent as nat)) as nat,
            },
        }
    }
}

/// `num / den` is `(n + rho / w) * 2^e`.
spec fn splits(num: nat, den: nat, n: nat, w: nat, rho: nat, e: int) -> bool {
    let pos: nat = if e > 0 {
        e as nat
    } else {
        0
    };
    let neg: nat = if e < 0 {
        (-e) as nat
    } else {
        0
    };
    &&& den > 0
    &&& w > 0
    &&& rho < w
    &&& num * (w * pow2(neg)) == ((n * w + rho) * pow2(pos)) * den
}

/// Doubling `n` and lowering the exponent keeps the value.
proof fn lemma_splits_double(num: nat, den: nat, n: nat, w: nat, e: int)
    requires
        splits(num, den, n, w, 0, e),
        e > 0,
    ensures
        splits(num, den, 2 * n, w, 0, e - 1),
{
    lemma2_to64();
    lemma_pow2_unfold(e as nat);
    let p = pow2((e - 1) as nat);
    assert((n * w + 0) * (2 * p) == ((2 * n) * w + 0) * p) by (nonlinear_arith);
}

impl Binary64 {
    fn parts(self) -> (r: Parts)
        ensures
            r.canonical(),
            r.value() == self@,
    {
        proof {
            lemma2_to64();
        }
        let negative: bool = self.bits >= SIGN_WEIGHT;
        let field: u64 = (self.bits / LEADING_BIT) % 2048;
        let fraction: u64 = self.bits % LEADING_BIT;
        if field == 2047 {
            if fraction == 0 {
                Parts::Infinite { negative }
            } else {
                Parts::Nan
            }
        } else if field == 0 {
            proof {
                assert(fraction * pow2(0) == fraction);
            }
            Parts::Finite { negative, significand: fraction, exponent: 0 }
        } else {
            Parts::Finite {
                negative,
                significand: fraction + LEADING_BIT,
                exponent: (field - 1) as u32,
            }
        }
    }

    fn infinite(negative: bool) -> (r: Binary64)
        ensures
            r@ == (Value::Infinite { negative }),
    {
        if negative {
            Binary64 { bits: 0xFFF0_0000_0000_0000 }
        } else {
            Binary64 { bits: 0x7FF0_0000_0000_0000 }
        }
    }

    fn nan() -> (r: Binary64)
        ensures
            r@ == Value::Nan,
    {
        Binary64 { bits: 0x7FF8_0000_0000_0000 }
    }

    fn finite(negative: bool, significand: u64, exponent: u32) -> (r: Binary64)
        requires
            significand < SIGNIFICAND_LIMIT,
            exponent <= MAX_EXPONENT,
            exponent > 0 ==> significand >= LEADING_BIT,
        ensures
            r@ == (Value::Finite {
                negative,
                magnitude: (significand * pow2(exponent as nat)) as nat,
            }),
    {
        proof {
            lemma2_to64();
        }
        let sign: u64 = if negative {
            SIGN_WEIGHT
        } else {
            0
        };
        if significand < LEADING_BIT {
            proof {
                assert(significand * pow2(0) == significand);
            }
            Binary64 { bits: sign + significand }
        } else {
            let fraction: u64 = significand - LEADING_BIT;
            let field: u64 = exponent as u64 + 1;
            let bits: u64 = sign + field * LEADING_BIT + fraction;
            Binary64 { bits }
        }
    }

    /// The number nearest to `(n + rho / w) * 2^e` units.
    fn assemble(
        negative: bool,
        n: u128,
        sticky: bool,
        e: i32,
        Ghost(num): Ghost<nat>,
        Ghost(den): Ghost<nat>,
        Ghost(w): Ghost<nat>,
        Ghost(rho): Ghost<nat>,
    ) -> (r: Binary64)
        requires
            n < 0x100_0000_0000_0000_0000_0000_0000_0000,
            -10000 <= e <= 10000,
            sticky == (rho != 0),
            sticky ==> n >= SIGNIFICAND_LIMIT || e < 0,
            splits(num, den, n as nat, w, rho, e as int),
        ensures
            r@ == rounded(negative, num, den),
    {
        let mut n: u128 = n;
        let mut e: i32 = e;
        proof {
            lemma2_to64();
            lemma2_to64_rest();
        }
        if n == 0 && !sticky {
            proof {
                lemma_zero_rounds(num, den, w, e as int);
                assert(0 * pow2(0) == 0);
            }
            return Binary64::finite(negative, 0, 0);
        }
        while n < LEADING_BIT as u128 && e > 0
            invariant
                0 < n || sticky,
                n < 0x100_0000_0000_0000_0000_0000_0000_0000,
                -10000 <= e <= 10000,
                sticky == (rho != 0),
                sticky ==> n >= SIGNIFICAND_LIMIT || e < 0,
                splits(num, den, n as nat, w, rho, e as int),
            decreases e,
        {
            proof {
                lemma_splits_double(num, den, n as nat, w, e as int);
            }
            n = n * 2;
            e = e - 1;
        }
        let least: u32 = if e < 0 {
            (-e) as u32
        } else {
            0
        };
        if least >= 122 {
            proof {
                lemma_deep_rounds_to_zero(num, den, n as nat, w, rho, e as int);
                assert(0 * pow2(0) == 0);
            }
            return Binary64::finite(negative, 0, 0);
        }
        let mut f: u128 = n;
        let mut p: u128 = 1;
        let mut k: u32 = 0;
        proof {
            assert(n as nat / 1 == n as nat);
        }
        while k < least || f >= SIGNIFICAND_LIMIT as u128
            invariant
                n < 0x100_0000_0000_0000_0000_0000_0000_0000,
                least < 122,
                k <= 121,
                p == pow2(k as nat),
                f == n as nat / pow2(k as nat),
                k > least ==> f >= LEADING_BIT,
            decreases 122 - k,
        {
            proof {
                lemma_pow2_pos(k as nat);
                lemma_pow2_unfold((k + 1) as nat);
                lemma_div_denominator(n as int, pow2(k as nat) as int, 2);
                assert(pow2(k as nat) * 2 == pow2((k + 1) as nat));
                lemma_pow2_bound(k);
                if k >= least {
                    lemma_shift_bound(n, k);
                }
            }
            f = f / 2;
            p = p * 2;
            k = k + 1;
        }
        proof {
            lemma_pow2_bound(k);
            lemma_pow2_pos(k as nat);
        }
        let rem: u128 = n % p;
        let twice: u128 = 2 * rem;
        let up: bool = twice > p || (twice == p && (sticky || f % 2 == 1));
        let u: u32 = (k as i32 + e) as u32;
        proof {
            if k > 0 {
                lemma_pow2_unfold(k as nat);
            }
            lemma_up(rem as nat, p as nat, w, rho, f as nat, k as nat, sticky, up);
            let pos: nat = if e > 0 {
                e as nat
            } else {
                0
            };
            let neg: nat = if e < 0 {
                (-e) as nat
            } else {
                0
            };
            rounding::lemma_round_split(n as nat, w, rho, k as nat, pos, neg, u as nat);
            lemma_pow2_pos(neg);
            let wn = w * pow2(neg);
            assert(wn > 0) by (nonlinear_arith)
                requires
                    wn == w * pow2(neg),
                    w > 0,
                    pow2(neg) > 0,
            ;
            rounding::lemma_round_same_value(num, den, (n as nat * w + rho) * pow2(pos), wn);
        }
        let mut significand: u64 = f as u64;
        let mut exponent: u32 = u;
        if up {
            significand = significand + 1;
            if significand == SIGNIFICAND_LIMIT {
                significand = LEADING_BIT;
                exponent = exponent + 1;
                proof {
                    lemma_pow2_unfold((u + 1) as nat);
                    assert(SIGNIFICAND_LIMIT * pow2(u as nat) == LEADING_BIT * (2 * pow2(
                        u as nat,
                    ))) by (nonlinear_arith);
                }
            }
        }
        proof {
            assert(significand * pow2(exponent as nat) == rounding::round_quotient(num, den));
            lemma_magnitude_range(significand as nat, exponent as nat);
        }
        if exponent > MAX_EXPONENT {
            Binary64::infinite(negative)
        } else {
            Binary64::finite(negative, significand, exponent)
        }
    }
}

proof fn lemma_pow2_bound(k: u32)
    requires
        k <= 122,
    ensures
        pow2(k as nat) <= 0x400_0000_0000_0000_0000_0000_0000_0000,
{
    lemma2_to64();
    lemma2_to64_rest();
    lemma_pow2_adds(61, 61);
    assert(pow2(61) == 0x2000_0000_0000_0000);
    assert(pow2(122) == 0x2000_0000_0000_0000 * 0x2000_0000_0000_0000);
    if k < 122 {
        lemma_pow2_strictly_increases(k as nat, 122);
    }
}

/// A quotient by `2^k` that still needs more than 53 bits leaves `k` small.
proof fn lemma_shift_bound(n: u128, k: u32)
    requires
        n < 0x100_0000_0000_0000_0000_0000_0000_0000,
        n as nat / pow2(k as nat) >= SIGNIFICAND_LIMIT,
    ensures
        k <= 68,
        (n as nat / pow2(k as nat)) / 2 >= LEADING_BIT,
{
    lemma_pow2_pos(k as nat);
    let p = pow2(k as nat);
    let f = n as nat / p;
    lemma_fundamental_div_mod(n as int, p as int);
    if k > 68 {
        lemma2_to64();
        lemma2_to64_rest();
        lemma_pow2_adds(34, 34);
        assert(pow2(68) == 0x4_0000_0000 * 0x4_0000_0000);
        lemma_pow2_strictly_increases(68, k as nat);
        assert(p * f >= 0x10_0000_0000_0000_0000 * 0x20_0000_0000_0000) by (nonlinear_arith)
            requires
                p >= 0x10_0000_0000_0000_0000,
                f >= 0x20_0000_0000_0000,
        ;
        assert(false);
    }
}

/// The comparison of twice the remainder with the step, from the integer
/// part of the remainder and the sticky flag.
proof fn lemma_up(rem: nat, p: nat, w: nat, rho: nat, f: nat, k: nat, sticky: bool, up: bool)
    requires
        w > 0,
        rho < w,
        sticky == (rho != 0),
        k == 0 ==> p == 1 && !sticky,
        k > 0 ==> p % 2 == 0,
        p > 0,
        rem < p,
        up == (2 * rem > p || (2 * rem == p && (sticky || f % 2 == 1))),
    ensures
        up == (2 * (rem * w + rho) > w * p || (2 * (rem * w + rho) == w * p && f % 2 == 1)),
{
    if k == 0 {
        assert(rem == 0);
        assert(w * p > 0) by (nonlinear_arith)
            requires
                w > 0,
                p > 0,
        ;
        assert(rem * w == 0) by (nonlinear_arith)
            requires
                rem == 0,
        ;
    } else if 2 * rem > p {
        assert(2 * (rem * w + rho) > w * p) by (nonlinear_arith)
            requires
                2 * rem > p,
                w > 0,
        ;
    } else if 2 * rem == p {
        assert(2 * (rem * w) == w * p) by (nonlinear_arith)
            requires
                2 * rem == p,
        ;
    } else {
        assert(2 * rem + 2 <= p);
        assert(2 * (rem * w + rho) < w * p) by (nonlinear_arith)
            requires
                2 * rem + 2 <= p,
                rho < w,
        ;
    }
}

proof fn lemma_zero_rounds(num: nat, den: nat, w: nat, e: int)
    requires
        splits(num, den, 0, w, 0, e),
    ensures
        rounding::round_quotient(num, den) == 0,
        0 < pow2(2098),
{
    let neg: nat = if e < 0 {
        (-e) as nat
    } else {
        0
    };
    let pos: nat = if e > 0 {
        e as nat
    } else {
        0
    };
    lemma_pow2_pos(neg);
    lemma_pow2_pos(2098);
    lemma2_to64();
    assert(((0 * w + 0) * pow2(pos)) * den == 0) by (nonlinear_arith);
    assert(num == 0) by (nonlinear_arith)
        requires
            num * (w * pow2(neg)) == 0,
            w > 0,
            pow2(neg) > 0,
    ;
    lemma_fundamental_div_mod_converse(0, den as int, 0, 0);
    assert(den * pow2(0) == den);
    assert(0 * pow2(0) == 0);
}

/// A number far below a unit rounds to zero.
proof fn lemma_deep_rounds_to_zero(num: nat, den: nat, n: nat, w: nat, rho: nat, e: int)
    requires
        splits(num, den, n, w, rho, e),
        e <= -122,
        n < 0x100_0000_0000_0000_0000_0000_0000_0000,
    ensures
        rounding::round_quotient(num, den) == 0,
        0 < pow2(2098),
{
    let neg = (-e) as nat;
    lemma2_to64();
    lemma2_to64_rest();
    lemma_pow2_pos(2098);
    lemma_pow2_adds(61, 61);
    assert(pow2(122) == 0x2000_0000_0000_0000 * 0x2000_0000_0000_0000);
    if neg > 122 {
        lemma_pow2_strictly_increases(122, neg);
    }
    let p = pow2(neg);
    assert(n * 4 <= p);
    assert(n as int / p as int == 0 && n as int % p as int == n) by {
        lemma_fundamental_div_mod_converse(n as int, p as int, 0, n as int);
    }
    rounding::lemma_round_split(n, w, rho, neg, 0, neg, 0);
    assert(2 * (n * w + rho) < w * p) by (nonlinear_arith)
        requires
            n * 4 <= p,
            rho < w,
            p >= 4,
    ;
    let wn = w * p;
    assert(wn > 0) by (nonlinear_arith)
        requires
            wn == w * p,
            w > 0,
            p > 0,
    ;
    assert((n * w + rho) * pow2(0) == n * w + rho);
    rounding::lemma_round_same_value(num, den, (n * w + rho) * pow2(0), wn);
    assert(0 * pow2(0) == 0);
}

/// A finite magnitude stays below 2^2098 exactly up to the largest exponent.
proof fn lemma_magnitude_range(significand: nat, exponent: nat)
    requires
        significand < SIGNIFICAND_LIMIT,
        exponent > 0 ==> significand >= LEADING_BIT,
    ensures
        exponent <= MAX_EXPONENT <==> significand * pow2(exponent) < pow2(2098),
{
    lemma2_to64();
    lemma2_to64_rest();
    let p = pow2(exponent);
    if exponent <= MAX_EXPONENT {
        lemma_pow2_adds(53, 2045);
        assert(pow2(53) == 0x20_0000_0000_0000);
        if exponent < 2045 {
            lemma_pow2_strictly_increases(exponent, 2045);
        }
        lemma_pow2_pos(2045);
        assert(significand * p < 0x20_0000_0000_0000 * pow2(2045)) by (nonlinear_arith)
            requires
                significand < 0x20_0000_0000_0000,
                p <= pow2(2045),
                pow2(2045) > 0,
        ;
    } else {
        lemma_pow2_adds(52, 2046);
        assert(pow2(52) == 0x10_0000_0000_0000);
        if exponent > 2046 {
            lemma_pow2_strictly_increases(2046, exponent);
        }
        assert(significand * p >= 0x10_0000_0000_0000 * pow2(2046)) by (nonlinear_arith)
            requires
                significand >= 0x10_0000_0000_0000,
                p >= pow2(2046),
        ;
    }
}

/// Splitting a sum of exponents over a product of powers of two.
proof fn lemma_pow2_product(a: nat, b: nat, c: nat)
    ensures
        pow2(a) * pow2(b) * pow2(c) == pow2(a + b + c),
{
    lemma_pow2_adds(a, b);
    lemma_pow2_adds(a + b, c);
}

impl Binary64 {
    /// The number with the given bit pattern.
    pub fn from_bits(bits: u64) -> (r: Binary64)
        ensures
            r.bits == bits,
    {
        Binary64 { bits }
    }

    /// The bit pattern of the number.
    pub fn to_bits(self) -> (r: u64)
        ensures
            r == self.bits,
    {
        self.bits
    }

    /// The number nearest to `n`.
    pub fn of(n: u128) -> (r: Binary64)
        ensures
            r@ == Value::of(n as nat),
    {
        let ghost num = n as nat * unit();
        proof {
            lemma2_to64();
            lemma_pow2_pos(1074);
        }
        if n < 0x100_0000_0000_0000_0000_0000_0000_0000 {
            proof {
                assert(num * (1 * pow2(0)) == ((n as nat * 1 + 0) * pow2(1074)) * 1)
                    by (nonlinear_arith)
                    requires
                        num == n as nat * pow2(1074),
                        pow2(0) == 1,
                ;
            }
            Binary64::assemble(
                false,
                n,
                false,
                1074,
                Ghost(num),
                Ghost(1),
                Ghost(1),
                Ghost(0),
            )
        } else {
            let high: u128 = n / 65536;
            let low: u128 = n % 65536;
            proof {
                lemma_pow2_adds(16, 1074);
                assert(pow2(16) == 65536);
                assert(num * (65536 * pow2(0)) == ((high as nat * 65536 + low as nat) * pow2(1090))
                    * 1) by (nonlinear_arith)
                    requires
                        num == n as nat * pow2(1074),
                        pow2(0) == 1,
                        pow2(1090) == 65536 * pow2(1074),
                        n as nat == high as nat * 65536 + low as nat,
                ;
            }
            Binary64::assemble(
                false,
                high,
                low != 0,
                1090,
                Ghost(num),
                Ghost(1),
                Ghost(65536),
                Ghost(low as nat),
            )
        }
    }

    pub fn negate(self) -> (r: Binary64)
        ensures
            r@ == self@.negate(),
    {
        match self.parts() {
            Parts::Nan => Binary64::nan(),
            Parts::Infinite { negative } => Binary64::infinite(!negative),
            Parts::Finite { negative, significand, exponent } => Binary64::finite(
                !negative,
                significand,
                exponent,
            ),
        }
    }

    /// The product, rounded to nearest.
    pub fn times(self, other: Binary64) -> (r: Binary64)
        ensures
            r@ == self@.times(other@),
    {
        match (self.parts(), other.parts()) {
            (
                Parts::Finite { negative: n1, significand: s1, exponent: e1 },
                Parts::Finite { negative: n2, significand: s2, exponent: e2 },
            ) => {
                let n: u128 = Binary64::widening_product(s1, s2);
                let e: i32 = e1 as i32 + e2 as i32 - 1074;
                let ghost num = (s1 * pow2(e1 as nat)) as nat * (s2 * pow2(e2 as nat)) as nat;
                proof {
                    lemma_times_splits(s1 as nat, e1 as nat, s2 as nat, e2 as nat);
                }
                Binary64::assemble(
                    n1 != n2,
                    n,
                    false,
                    e,
                    Ghost(num),
                    Ghost(unit()),
                    Ghost(1),
                    Ghost(0),
                )
            },
            (Parts::Infinite { negative: n1 }, Parts::Infinite { negative: n2 }) => {
                Binary64::infinite(n1 != n2)
            },
            (
                Parts::Infinite { negative: n1 },
                Parts::Finite { negative: n2, significand, exponent },
            ) => {
                proof {
                    lemma_zero_magnitude(significand as nat, exponent as nat);
                }
                if significand == 0 {
                    Binary64::nan()
                } else {
                    Binary64::infinite(n1 != n2)
                }
            },
            (
                Parts::Finite { negative: n1, significand, exponent },
                Parts::Infinite { negative: n2 },
            ) => {
                proof {
                    lemma_zero_magnitude(significand as nat, exponent as nat);
                }
                if significand == 0 {
                    Binary64::nan()
                } else {
                    Binary64::infinite(n1 != n2)
                }
            },
            (Parts::Nan, _) => Binary64::nan(),
            (_, Parts::Nan) => Binary64::nan(),
        }
    }

    fn widening_product(a: u64, b: u64) -> (r: u128)
        requires
            a < SIGNIFICAND_LIMIT,
            b < SIGNIFICAND_LIMIT,
        ensures
            r == a * b,
            r < 0x100_0000_0000_0000_0000_0000_0000_0000,
    {
        proof {
            assert(a * b < 0x100_0000_0000_0000_0000_0000_0000_0000) by (nonlinear_arith)
                requires
                    a < 0x20_0000_0000_0000,
                    b < 0x20_0000_0000_0000,
            ;
        }
        a as u128 * b as u128
    }

    /// The quotient, rounded to nearest.
    pub fn over(self, other: Binary64) -> (r: Binary64)
        ensures
            r@ == self@.over(other@),
    {
        match (self.parts(), other.parts()) {
            (
                Parts::Finite { negative: n1, significand: s1, exponent: e1 },
                Parts::Finite { negative: n2, significand: s2, exponent: e2 },
            ) => {
                proof {
                    lemma_zero_magnitude(s1 as nat, e1 as nat);
                    lemma_zero_magnitude(s2 as nat, e2 as nat);
                }
                if s2 == 0 {
                    if s1 == 0 {
                        Binary64::nan()
                    } else {
                        Binary64::infinite(n1 != n2)
                    }
                } else {
                    Binary64::finite_quotient(n1 != n2, s1, e1, s2, e2)
                }
            },
            (Parts::Infinite { negative: n1 }, Parts::Finite { negative: n2, .. }) => {
                Binary64::infinite(n1 != n2)
            },
            (Parts::Finite { negative: n1, .. }, Parts::Infinite { negative: n2 }) => {
                proof {
                    assert(0 * pow2(0) == 0);
                }
                Binary64::finite(n1 != n2, 0, 0)
            },
            (Parts::Infinite { .. }, Parts::Infinite { .. }) => Binary64::nan(),
            (Parts::Nan, _) => Binary64::nan(),
            (_, Parts::Nan) => Binary64::nan(),
        }
    }

    fn finite_quotient(negative: bool, s1: u64, e1: u32, s2: u64, e2: u32) -> (r: Binary64)
        requires
            s1 < SIGNIFICAND_LIMIT,
            0 < s2 < SIGNIFICAND_LIMIT,
            e1 <= MAX_EXPONENT,
            e2 <= MAX_EXPONENT,
        ensures
            r@ == rounded(
                negative,
                (s1 * pow2(e1 as nat)) as nat * unit(),
                (s2 * pow2(e2 as nat)) as nat,
            ),
    {
        let ghost num = (s1 * pow2(e1 as nat)) as nat * unit();
        let ghost den = (s2 * pow2(e2 as nat)) as nat;
        // Bring the dividend to 53 bits, so that 66 more give a long quotient.
        let mut top: u64 = s1;
        let mut shift: u32 = 0;
        proof {
            lemma2_to64();
        }
        while top < LEADING_BIT && shift < 53
            invariant
                s1 < SIGNIFICAND_LIMIT,
                shift <= 53,
                top == s1 * pow2(shift as nat),
                top < SIGNIFICAND_LIMIT,
            decreases 53 - shift,
        {
            proof {
                lemma_pow2_unfold((shift + 1) as nat);
                assert(s1 * (2 * pow2(shift as nat)) == 2 * (s1 * pow2(shift as nat)))
                    by (nonlinear_arith);
            }
            top = top * 2;
            shift = shift + 1;
        }
        proof {
            lemma2_to64_rest();
            assert(s1 > 0 ==> top >= LEADING_BIT) by {
                if s1 > 0 && shift == 53 {
                    assert(pow2(53) == 0x20_0000_0000_0000);
                    assert(s1 * pow2(53) >= 0x20_0000_0000_0000) by (nonlinear_arith)
                        requires
                            s1 >= 1,
                            pow2(53) == 0x20_0000_0000_0000,
                    ;
                }
            }
            assert(s1 == 0 ==> top == 0) by (nonlinear_arith)
                requires
                    top == s1 * pow2(shift as nat),
            ;
        }
        let dividend: u128 = top as u128 * 0x4_0000_0000_0000_0000;
        let divisor: u128 = s2 as u128;
        let n: u128 = dividend / divisor;
        let low: u128 = dividend % divisor;
        let e: i32 = e1 as i32 - shift as i32 - e2 as i32 + 1074 - 66;
        proof {
            lemma_fundamental_div_mod(dividend as int, divisor as int);
            assert(n <= dividend) by (nonlinear_arith)
                requires
                    dividend == divisor * n + low,
                    divisor >= 1,
                    low >= 0,
            ;
            if s1 > 0 {
                assert(n >= 0x20_0000_0000_0000) by (nonlinear_arith)
                    requires
                        dividend == divisor * n + low,
                        low < divisor,
                        divisor < 0x20_0000_0000_0000,
                        dividend >= 0x10_0000_0000_0000 * 0x4_0000_0000_0000_0000,
                ;
            }
            lemma_over_splits(
                s1 as nat,
                e1 as nat,
                s2 as nat,
                e2 as nat,
                shift as nat,
                top as nat,
                n as nat,
                low as nat,
            );
        }
        Binary64::assemble(
            negative,
            n,
            low != 0,
            e,
            Ghost(num),
            Ghost(den),
            Ghost(s2 as nat),
            Ghost(low as nat),
        )
    }
}

proof fn lemma_zero_magnitude(significand: nat, exponent: nat)
    ensures
        significand * pow2(exponent) == 0 <==> significand == 0,
{
    lemma_pow2_pos(exponent);
    assert(significand * pow2(exponent) == 0 <==> significand == 0) by (nonlinear_arith)
        requires
            pow2(exponent) > 0,
    ;
}

proof fn lemma_times_splits(s1: nat, e1: nat, s2: nat, e2: nat)
    ensures
        splits((s1 * pow2(e1)) * (s2 * pow2(e2)), unit(), s1 * s2, 1, 0, e1 + e2 - 1074),
{
    let e = e1 + e2 - 1074;
    let pos: nat = if e > 0 {
        e as nat
    } else {
        0
    };
    let neg: nat = if e < 0 {
        (-e) as nat
    } else {
        0
    };
    let num = (s1 * pow2(e1)) * (s2 * pow2(e2));
    lemma_pow2_pos(1074);
    lemma_pow2_product(e1, e2, neg);
    lemma_pow2_adds(pos, 1074);
    assert(e1 + e2 + neg == pos + 1074);
    assert(num * (1 * pow2(neg)) == ((s1 * s2 * 1 + 0) * pow2(pos)) * unit()) by (nonlinear_arith)
        requires
            num == (s1 * pow2(e1)) * (s2 * pow2(e2)),
            pow2(e1) * pow2(e2) * pow2(neg) == pow2(pos) * unit(),
    ;
}

proof fn lemma_over_splits(
    s1: nat,
    e1: nat,
    s2: nat,
    e2: nat,
    shift: nat,
    top: nat,
    n: nat,
    low: nat,
)
    requires
        s2 > 0,
        top == s1 * pow2(shift),
        top * 0x4_0000_0000_0000_0000 == s2 * n + low,
        low < s2,
    ensures
        splits(
            (s1 * pow2(e1)) * unit(),
            s2 * pow2(e2),
            n,
            s2,
            low,
            e1 - shift - e2 + 1074 - 66,
        ),
{
    let e = e1 - shift - e2 + 1074 - 66;
    let pos: nat = if e > 0 {
        e as nat
    } else {
        0
    };
    let neg: nat = if e < 0 {
        (-e) as nat
    } else {
        0
    };
    let num = (s1 * pow2(e1)) * unit();
    let den = s2 * pow2(e2);
    lemma2_to64();
    lemma2_to64_rest();
    lemma_pow2_adds(33, 33);
    assert(pow2(66) == 0x4_0000_0000_0000_0000);
    lemma_pow2_pos(e2);
    assert(den > 0) by (nonlinear_arith)
        requires
            den == s2 * pow2(e2),
            s2 > 0,
            pow2(e2) > 0,
    ;
    lemma_pow2_product(e1, 1074, neg);
    lemma_pow2_product(shift, 66, pos);
    lemma_pow2_adds(shift + 66 + pos, e2);
    assert(e1 + 1074 + neg == shift + 66 + pos + e2);
    let whole = s2 * n + low;
    assert(whole == s1 * pow2(shift) * pow2(66));
    assert(n * s2 + low == whole) by (nonlinear_arith)
        requires
            whole == s2 * n + low,
    ;
    let (a, b, c) = (pow2(e1), unit(), pow2(neg));
    let (d, f, g, h) = (pow2(shift), pow2(66), pow2(pos), pow2(e2));
    assert(num * (s2 * c) == (s1 * s2) * (a * b * c)) by (nonlinear_arith)
        requires
            num == (s1 * a) * b,
    ;
    assert((whole * g) * den == (s1 * s2) * (d * f * g * h)) by (nonlinear_arith)
        requires
            whole == s1 * d * f,
            den == s2 * h,
    ;
}

/// For decoded numbers, magnitudes are ordered by exponent, then significand.
proof fn lemma_magnitude_order(s1: nat, e1: nat, s2: nat, e2: nat)
    requires
        s1 < SIGNIFICAND_LIMIT,
        s2 < SIGNIFICAND_LIMIT,
        e1 > 0 ==> s1 >= LEADING_BIT,
        e2 > 0 ==> s2 >= LEADING_BIT,
    ensures
        s1 * pow2(e1) < s2 * pow2(e2) <==> e1 < e2 || (e1 == e2 && s1 < s2),
        s1 * pow2(e1) == s2 * pow2(e2) <==> e1 == e2 && s1 == s2,
{
    lemma_pow2_pos(e1);
    lemma_pow2_pos(e2);
    if e1 == e2 {
        let p = pow2(e1);
        assert(s1 * p < s2 * p <==> s1 < s2) by (nonlinear_arith)
            requires
                p > 0,
        ;
        assert(s1 * p == s2 * p <==> s1 == s2) by (nonlinear_arith)
            requires
                p > 0,
        ;
    } else if e1 < e2 {
        lemma_higher_exponent(s1, e1, s2, e2);
    } else {
        lemma_higher_exponent(s2, e2, s1, e1);
    }
}

proof fn lemma_higher_exponent(s1: nat, e1: nat, s2: nat, e2: nat)
    requires
        s1 < SIGNIFICAND_LIMIT,
        s2 >= LEADING_BIT,
        e1 < e2,
    ensures
        s1 * pow2(e1) < s2 * pow2(e2),
{
    lemma_pow2_pos(e1);
    lemma_pow2_unfold((e1 + 1) as nat);
    if e1 + 1 < e2 {
        lemma_pow2_strictly_increases((e1 + 1) as nat, e2);
    }
    let (p, q) = (pow2(e1), pow2(e2));
    assert(s1 * p < s2 * q) by (nonlinear_arith)
        requires
            s1 < 0x20_0000_0000_0000,
            s2 >= 0x10_0000_0000_0000,
            q >= 2 * p,
            p > 0,
    ;
}

impl Binary64 {
    /// The number nearest to `num / den`, for numbers of up to 53 bits.
    pub fn ratio(num: u32, den: u32) -> (r: Binary64)
        requires
            den > 0,
        ensures
            r@ == Value::ratio(num as nat, den as nat),
    {
        let a: Binary64 = Binary64::of(num as u128);
        let b: Binary64 = Binary64::of(den as u128);
        proof {
            lemma_of_exact(num as nat);
            lemma_of_exact(den as nat);
            lemma_pow2_pos(1074);
            lemma_zero_magnitude(den as nat, 1074);
            rounding::lemma_round_scaled(num as nat * unit(), den as nat, unit());
        }
        a.over(b)
    }

    /// The sum, rounded to nearest.
    pub fn plus(self, other: Binary64) -> (r: Binary64)
        ensures
            r@ == self@.plus(other@),
    {
        match (self.parts(), other.parts()) {
            (
                Parts::Finite { negative: n1, significand: s1, exponent: e1 },
                Parts::Finite { negative: n2, significand: s2, exponent: e2 },
            ) => {
                proof {
                    lemma_magnitude_order(s1 as nat, e1 as nat, s2 as nat, e2 as nat);
                }
                if e1 < e2 || (e1 == e2 && s1 < s2) {
                    Binary64::finite_sum(n2, s2, e2, n1, s1, e1)
                } else {
                    Binary64::finite_sum(n1, s1, e1, n2, s2, e2)
                }
            },
            (Parts::Infinite { negative: n1 }, Parts::Infinite { negative: n2 }) => {
                if n1 == n2 {
                    Binary64::infinite(n1)
                } else {
                    Binary64::nan()
                }
            },
            (Parts::Infinite { negative }, Parts::Finite { .. }) => Binary64::infinite(negative),
            (Parts::Finite { .. }, Parts::Infinite { negative }) => Binary64::infinite(negative),
            (Parts::Nan, _) => Binary64::nan(),
            (_, Parts::Nan) => Binary64::nan(),
        }
    }

    /// The sum of two decoded numbers, the first of no smaller magnitude.
    fn finite_sum(n1: bool, s1: u64, e1: u32, n2: bool, s2: u64, e2: u32) -> (r: Binary64)
        requires
            (Parts::Finite { negative: n1, significand: s1, exponent: e1 }).canonical(),
            (Parts::Finite { negative: n2, significand: s2, exponent: e2 }).canonical(),
            e2 < e1 || (e1 == e2 && s2 <= s1),
        ensures
            r@ == (Parts::Finite { negative: n1, significand: s1, exponent: e1 }).value().plus(
                (Parts::Finite { negative: n2, significand: s2, exponent: e2 }).value(),
            ),
    {
        let ghost m1 = (s1 * pow2(e1 as nat)) as nat;
        let ghost m2 = (s2 * pow2(e2 as nat)) as nat;
        proof {
            lemma_magnitude_order(s2 as nat, e2 as nat, s1 as nat, e1 as nat);
            lemma_zero_magnitude(s1 as nat, e1 as nat);
            lemma_zero_magnitude(s2 as nat, e2 as nat);
            assert(0 * pow2(0) == 0);
        }
        if n1 == n2 {
            if s1 == 0 {
                Binary64::finite(n1, 0, 0)
            } else {
                Binary64::combine(n1, s1, e1, s2, e2, false)
            }
        } else if e1 == e2 && s1 == s2 {
            Binary64::finite(false, 0, 0)
        } else {
            Binary64::combine(n1, s1, e1, s2, e2, true)
        }
    }

    /// The sum or the difference of two magnitudes, rounded.
    fn combine(negative: bool, s1: u64, e1: u32, s2: u64, e2: u32, subtract: bool) -> (r: Binary64)
        requires
            s1 < SIGNIFICAND_LIMIT,
            s2 < SIGNIFICAND_LIMIT,
            e1 <= MAX_EXPONENT,
            e1 > 0 ==> s1 >= LEADING_BIT,
            e2 < e1 || (e1 == e2 && s2 <= s1),
        ensures
            r@ == rounded(
                negative,
                if subtract {
                    (s1 * pow2(e1 as nat) - s2 * pow2(e2 as nat)) as nat
                } else {
                    (s1 * pow2(e1 as nat) + s2 * pow2(e2 as nat)) as nat
                },
                1,
            ),
    {
        let ghost m1 = (s1 * pow2(e1 as nat)) as nat;
        let ghost m2 = (s2 * pow2(e2 as nat)) as nat;
        let ghost num: nat = if subtract {
            (m1 - m2) as nat
        } else {
            m1 + m2
        };
        let d: u32 = e1 - e2;
        if d <= 64 {
            let scale: u128 = Binary64::power(d);
            proof {
                lemma2_to64();
                lemma2_to64_rest();
                if d < 64 {
                    lemma_pow2_strictly_increases(d as nat, 64);
                }
                assert(0 <= s1 * scale <= 0x20_0000_0000_0000 * 0x1_0000_0000_0000_0000)
                    by (nonlinear_arith)
                    requires
                        s1 < 0x20_0000_0000_0000,
                        0 < scale <= 0x1_0000_0000_0000_0000,
                ;
                if d > 0 {
                    lemma_pow2_unfold(d as nat);
                    lemma_pow2_pos((d - 1) as nat);
                    assert(s1 * scale >= 0x20_0000_0000_0000) by (nonlinear_arith)
                        requires
                            s1 >= 0x10_0000_0000_0000,
                            scale >= 2,
                    ;
                }
                lemma_pow2_adds(d as nat, e2 as nat);
                let big = (s1 * scale) as nat;
                let p = pow2(e2 as nat);
                assert(m1 == big * p) by (nonlinear_arith)
                    requires
                        m1 == s1 * pow2(e1 as nat),
                        pow2(e1 as nat) == pow2(d as nat) * p,
                        big == s1 * pow2(d as nat),
                ;
                assert((big + s2) * p == m1 + m2) by (nonlinear_arith)
                    requires
                        m1 == big * p,
                        m2 == s2 * p,
                ;
                assert((big - s2) * p == m1 - m2) by (nonlinear_arith)
                    requires
                        m1 == big * p,
                        m2 == s2 * p,
                ;
            }
            let big: u128 = s1 as u128 * scale;
            let n: u128 = if subtract {
                big - s2 as u128
            } else {
                big + s2 as u128
            };
            proof {
                assert(num == n * pow2(e2 as nat));
                assert(num * (1 * pow2(0)) == ((n as nat * 1 + 0) * pow2(e2 as nat)) * 1)
                    by (nonlinear_arith)
                    requires
                        num == n * pow2(e2 as nat),
                        pow2(0) == 1,
                ;
            }
            Binary64::assemble(
                negative,
                n,
                false,
                e2 as i32,
                Ghost(num),
                Ghost(1),
                Ghost(1),
                Ghost(0),
            )
        } else {
            Binary64::combine_far(negative, s1, e1, s2, e2, subtract)
        }
    }

    /// `combine` for magnitudes whose exponents are far apart.
    fn combine_far(negative: bool, s1: u64, e1: u32, s2: u64, e2: u32, subtract: bool) -> (r:
        Binary64)
        requires
            LEADING_BIT <= s1 < SIGNIFICAND_LIMIT,
            s2 < SIGNIFICAND_LIMIT,
            e1 <= MAX_EXPONENT,
            e2 + 64 < e1,
        ensures
            r@ == rounded(
                negative,
                if subtract {
                    (s1 * pow2(e1 as nat) - s2 * pow2(e2 as nat)) as nat
                } else {
                    (s1 * pow2(e1 as nat) + s2 * pow2(e2 as nat)) as nat
                },
                1,
            ),
    {
        let ghost m1 = (s1 * pow2(e1 as nat)) as nat;
        let ghost m2 = (s2 * pow2(e2 as nat)) as nat;
        let ghost num: nat = if subtract {
            (m1 - m2) as nat
        } else {
            m1 + m2
        };
        let drop: u32 = e1 - e2 - 64;
        let ghost w = pow2(drop as nat);
        proof {
            lemma2_to64();
            lemma2_to64_rest();
            lemma_pow2_pos(drop as nat);
        }
        // What the smaller magnitude adds in places of 2^(e1 - 64), and below.
        let whole: u64;
        let part: bool;
        let ghost low: nat;
        if drop >= 64 {
            proof {
                if drop > 64 {
                    lemma_pow2_strictly_increases(64, drop as nat);
                }
                low = s2 as nat;
                assert(0 * w == 0);
            }
            whole = 0;
            part = s2 != 0;
        } else {
            let divisor: u128 = Binary64::power(drop);
            proof {
                lemma_fundamental_div_mod(s2 as int, divisor as int);
                low = (s2 as u128 % divisor) as nat;
                assert(s2 as u128 / divisor <= s2) by (nonlinear_arith)
                    requires
                        divisor >= 1,
                ;
            }
            whole = (s2 as u128 / divisor) as u64;
            part = s2 as u128 % divisor != 0;
            proof {
                assert(s2 == whole * w + low) by (nonlinear_arith)
                    requires
                        s2 == divisor * whole + low,
                        divisor == w,
                ;
            }
        }
        let big: u128 = s1 as u128 * 0x1_0000_0000_0000_0000;
        let e: i32 = e1 as i32 - 64;
        let n: u128 = if subtract {
            if part {
                big - whole as u128 - 1
            } else {
                big - whole as u128
            }
        } else {
            big + whole as u128
        };
        let ghost rho: nat = if subtract && part {
            (w - low) as nat
        } else {
            low
        };
        proof {
            lemma_far_splits(
                s1 as nat,
                e1 as nat,
                s2 as nat,
                e2 as nat,
                drop as nat,
                whole as nat,
                low,
                n as nat,
                rho,
                subtract,
            );
        }
        Binary64::assemble(negative, n, part, e, Ghost(num), Ghost(1), Ghost(w), Ghost(rho))
    }

    fn power(k: u32) -> (r: u128)
        requires
            k <= 120,
        ensures
            r == pow2(k as nat),
            r > 0,
    {
        let mut p: u128 = 1;
        let mut i: u32 = 0;
        proof {
            lemma2_to64();
        }
        while i < k
            invariant
                i <= k <= 120,
                p == pow2(i as nat),
            decreases k - i,
        {
            proof {
                lemma_pow2_bound(i);
                lemma_pow2_unfold((i + 1) as nat);
            }
            p = p * 2;
            i = i + 1;
        }
        proof {
            lemma_pow2_pos(k as nat);
        }
        p
    }

    /// The difference, rounded to nearest.
    pub fn minus(self, other: Binary64) -> (r: Binary64)
        ensures
            r@ == self@.minus(other@),
    {
        self.plus(other.negate())
    }

    /// The ordering `<`.
    pub fn less(self, other: Binary64) -> (r: bool)
        ensures
            r == self@.less(other@),
    {
        match (self.parts(), other.parts()) {
            (
                Parts::Finite { negative: n1, significand: s1, exponent: e1 },
                Parts::Finite { negative: n2, significand: s2, exponent: e2 },
            ) => {
                proof {
                    lemma_magnitude_order(s1 as nat, e1 as nat, s2 as nat, e2 as nat);
                    lemma_magnitude_order(s2 as nat, e2 as nat, s1 as nat, e1 as nat);
                    lemma_zero_magnitude(s1 as nat, e1 as nat);
                    lemma_zero_magnitude(s2 as nat, e2 as nat);
                }
                if n1 {
                    if n2 {
                        e2 < e1 || (e1 == e2 && s2 < s1)
                    } else {
                        s1 != 0 || s2 != 0
                    }
                } else if n2 {
                    false
                } else {
                    e1 < e2 || (e1 == e2 && s1 < s2)
                }
            },
            (Parts::Infinite { negative: n1 }, Parts::Infinite { negative: n2 }) => n1 && !n2,
            (Parts::Infinite { negative }, Parts::Finite { .. }) => negative,
            (Parts::Finite { .. }, Parts::Infinite { negative }) => !negative,
            (Parts::Nan, _) => false,
            (_, Parts::Nan) => false,
        }
    }

    fn is_nan(self) -> (r: bool)
        ensures
            r == (self@ is Nan),
    {
        match self.parts() {
            Parts::Nan => true,
            _ => false,
        }
    }

    /// The smaller of two numbers; the other one where one is not a number.
    pub fn smaller(self, other: Binary64) -> (r: Binary64)
        ensures
            r@ == self@.smaller(other@),
    {
        if self.is_nan() || other.less(self) {
            other
        } else {
            self
        }
    }

    /// The larger of two numbers; the other one where one is not a number.
    pub fn larger(self, other: Binary64) -> (r: Binary64)
        ensures
            r@ == self@.larger(other@),
    {
        if self.is_nan() || self.less(other) {
            other
        } else {
            self
        }
    }
}

/// A number of up to 53 bits is held exactly.
pub proof fn lemma_of_exact(n: nat)
    requires
        n <= SIGNIFICAND_LIMIT,
    ensures
        Value::of(n) == (Value::Finite { negative: false, magnitude: n * unit() }),
{
    rounding::lemma_representable(n, 1074);
    lemma2_to64();
    lemma2_to64_rest();
    lemma_pow2_adds(54, 1074);
    lemma_pow2_strictly_increases(1128, 2098);
    lemma_pow2_pos(1074);
    assert(pow2(54) == 0x40_0000_0000_0000);
    assert(n * unit() < 0x40_0000_0000_0000 * unit()) by (nonlinear_arith)
        requires
            n <= 0x20_0000_0000_0000,
            unit() > 0,
    ;
}

proof fn lemma_far_splits(
    s1: nat,
    e1: nat,
    s2: nat,
    e2: nat,
    drop: nat,
    whole: nat,
    low: nat,
    n: nat,
    rho: nat,
    subtract: bool,
)
    requires
        s1 >= LEADING_BIT,
        s2 < SIGNIFICAND_LIMIT,
        e1 == e2 + drop + 64,
        s2 == whole * pow2(drop) + low,
        low < pow2(drop),
        !subtract ==> n == s1 * 0x1_0000_0000_0000_0000 + whole && rho == low,
        subtract && low == 0 ==> n == s1 * 0x1_0000_0000_0000_0000 - whole && rho == 0,
        subtract && low > 0 ==> n == s1 * 0x1_0000_0000_0000_0000 - whole - 1 && rho == pow2(drop)
            - low,
    ensures
        splits(
            if subtract {
                (s1 * pow2(e1) - s2 * pow2(e2)) as nat
            } else {
                s1 * pow2(e1) + s2 * pow2(e2)
            },
            1,
            n,
            pow2(drop),
            rho,
            e1 - 64,
        ),
{
    lemma2_to64();
    lemma2_to64_rest();
    let w = pow2(drop);
    lemma_pow2_pos(drop);
    lemma_pow2_pos(e2);
    let p = pow2(e2);
    let big = s1 * 0x1_0000_0000_0000_0000;
    lemma_pow2_adds(e2, drop);
    let q = pow2((e1 - 64) as nat);
    assert(q == p * w);
    lemma_pow2_adds((e1 - 64) as nat, 64);
    let m1 = s1 * pow2(e1);
    let m2 = s2 * p;
    assert(m1 == big * q) by (nonlinear_arith)
        requires
            m1 == s1 * pow2(e1),
            pow2(e1) == q * 0x1_0000_0000_0000_0000,
            big == s1 * 0x1_0000_0000_0000_0000,
    ;
    assert(m1 * w == (big * w) * q) by (nonlinear_arith)
        requires
            m1 == big * q,
    ;
    assert(m2 * w == s2 * q) by (nonlinear_arith)
        requires
            m2 == s2 * p,
            q == p * w,
    ;
    assert(m2 <= m1) by (nonlinear_arith)
        requires
            m2 == s2 * p,
            m1 == big * q,
            q == p * w,
            w >= 1,
            p >= 1,
            s2 <= big,
    ;
    let total = n * w + rho;
    if subtract {
        assert(total == big * w - s2) by (nonlinear_arith)
            requires
                total == n * w + rho,
                s2 == whole * w + low,
                n * w + rho == (big - whole) * w - low || n * w + rho == (big - whole - 1) * w + w
                    - low,
        ;
        assert((m1 - m2) * w == total * q) by (nonlinear_arith)
            requires
                m1 * w == (big * w) * q,
                m2 * w == s2 * q,
                total == big * w - s2,
        ;
    } else {
        assert(total == big * w + s2) by (nonlinear_arith)
            requires
                total == n * w + rho,
                n == big + whole,
                rho == low,
                s2 == whole * w + low,
        ;
        assert((m1 + m2) * w == total * q) by (nonlinear_arith)
            requires
                m1 * w == (big * w) * q,
                m2 * w == s2 * q,
                total == big * w + s2,
        ;
    }
    assert(w * pow2(0) == w);
}

impl Binary64 {
    /// The whole part, between zero and `max`.
    pub fn truncate(self, max: u64) -> (r: u64)
        ensures
            r as nat == self@.truncated(max as nat),
    {
        match self.parts() {
            Parts::Finite { negative: false, significand, exponent } => {
                if exponent >= UNIT_EXPONENT {
                    Binary64::scale_up(significand, exponent, max)
                } else {
                    let down: u32 = UNIT_EXPONENT - exponent;
                    proof {
                        lemma_scaled_down(significand as nat, exponent as nat);
                    }
                    if down >= 64 {
                        proof {
                            lemma2_to64();
                            lemma2_to64_rest();
                            if down > 64 {
                                lemma_pow2_strictly_increases(64, down as nat);
                            }
                            lemma_fundamental_div_mod_converse(
                                significand as int,
                                pow2(down as nat) as int,
                                0,
                                significand as int,
                            );
                        }
                        return 0;
                    }
                    let n: u128 = significand as u128 / Binary64::power(down);
                    if n > max as u128 {
                        max
                    } else {
                        n as u64
                    }
                }
            },
            Parts::Infinite { negative: false } => max,
            _ => 0,
        }
    }

    /// The nearest whole number, halves away from zero, between zero and `max`.
    pub fn nearest_whole(self, max: u64) -> (r: u64)
        ensures
            r as nat == self@.nearest_whole(max as nat),
    {
        match self.parts() {
            Parts::Finite { negative: false, significand, exponent } => {
                if exponent >= UNIT_EXPONENT {
                    proof {
                        lemma_whole_is_nearest(significand as nat, exponent as nat);
                    }
                    Binary64::scale_up(significand, exponent, max)
                } else {
                    let down: u32 = UNIT_EXPONENT - exponent;
                    proof {
                        lemma_half_scaled_down(significand as nat, exponent as nat);
                        lemma2_to64();
                        lemma2_to64_rest();
                    }
                    if down >= 64 {
                        proof {
                            if down > 64 {
                                lemma_pow2_strictly_increases(64, down as nat);
                            }
                            lemma_fundamental_div_mod_converse(
                                (2 * significand + pow2(down as nat)) as int,
                                2 * pow2(down as nat) as int,
                                0,
                                (2 * significand + pow2(down as nat)) as int,
                            );
                        }
                        return 0;
                    }
                    let p: u128 = Binary64::power(down);
                    proof {
                        lemma_pow2_bound(down);
                        lemma_pow2_strictly_increases(down as nat, 64);
                    }
                    let n: u128 = (2 * significand as u128 + p) / (2 * p);
                    if n > max as u128 {
                        max
                    } else {
                        n as u64
                    }
                }
            },
            Parts::Infinite { negative: false } => max,
            _ => 0,
        }
    }

    /// A number without fraction bits, up to `max`.
    fn scale_up(significand: u64, exponent: u32, max: u64) -> (r: u64)
        requires
            exponent >= UNIT_EXPONENT,
        ensures
            r as nat == ({
                let n = (significand * pow2(exponent as nat)) as nat / unit();
                if n > max {
                    max as nat
                } else {
                    n
                }
            }),
    {
        let shift: u32 = exponent - UNIT_EXPONENT;
        let ghost goal = (significand * pow2(shift as nat)) as nat;
        let mut v: u128 = significand as u128;
        let mut i: u32 = 0;
        proof {
            lemma_scaled_up(significand as nat, exponent as nat);
            lemma2_to64();
        }
        while i < shift && v <= max as u128 && v != 0
            invariant
                i <= shift,
                v == significand * pow2(i as nat),
                v <= 2 * (max as u128) || v == significand,
                goal == significand * pow2(shift as nat),
            decreases shift - i,
        {
            proof {
                lemma_pow2_unfold((i + 1) as nat);
                assert(significand * (2 * pow2(i as nat)) == 2 * (significand * pow2(i as nat)))
                    by (nonlinear_arith);
            }
            v = v * 2;
            i = i + 1;
        }
        proof {
            if i < shift {
                lemma_pow2_strictly_increases(i as nat, shift as nat);
                assert(goal >= v) by (nonlinear_arith)
                    requires
                        goal == significand * pow2(shift as nat),
                        v == significand * pow2(i as nat),
                        pow2(shift as nat) >= pow2(i as nat),
                ;
                if v == 0 {
                    lemma_pow2_pos(i as nat);
                    assert(significand == 0) by (nonlinear_arith)
                        requires
                            significand * pow2(i as nat) == 0,
                            pow2(i as nat) > 0,
                    ;
                    assert(goal == 0);
                }
            }
        }
        if v > max as u128 {
            max
        } else {
            v as u64
        }
    }
}

proof fn lemma_scaled_up(s: nat, e: nat)
    requires
        e >= 1074,
    ensures
        (s * pow2(e)) / unit() == s * pow2((e - 1074) as nat),
{
    lemma_pow2_adds((e - 1074) as nat, 1074);
    lemma_pow2_pos(1074);
    let n = s * pow2((e - 1074) as nat);
    assert(s * pow2(e) == n * unit()) by (nonlinear_arith)
        requires
            pow2(e) == pow2((e - 1074) as nat) * unit(),
            n == s * pow2((e - 1074) as nat),
    ;
    lemma_fundamental_div_mod_converse((s * pow2(e)) as int, unit() as int, n as int, 0);
}

proof fn lemma_scaled_down(s: nat, e: nat)
    requires
        e < 1074,
    ensures
        (s * pow2(e)) / unit() == s / pow2((1074 - e) as nat),
{
    let q = pow2((1074 - e) as nat);
    let p = pow2(e);
    lemma_pow2_adds((1074 - e) as nat, e);
    lemma_pow2_pos(e);
    lemma_pow2_pos((1074 - e) as nat);
    rounding::lemma_div_scaled(s, q, p);
}

proof fn lemma_half_scaled_down(s: nat, e: nat)
    requires
        e < 1074,
    ensures
        (2 * (s * pow2(e)) + unit()) / (2 * unit()) == (2 * s + pow2((1074 - e) as nat)) / (2
            * pow2((1074 - e) as nat)),
{
    let q = pow2((1074 - e) as nat);
    let p = pow2(e);
    lemma_pow2_adds((1074 - e) as nat, e);
    lemma_pow2_pos(e);
    lemma_pow2_pos((1074 - e) as nat);
    assert((2 * s + q) * p == 2 * (s * p) + unit()) by (nonlinear_arith)
        requires
            unit() == q * p,
    ;
    assert((2 * q) * p == 2 * unit()) by (nonlinear_arith)
        requires
            unit() == q * p,
    ;
    rounding::lemma_div_scaled(2 * s + q, 2 * q, p);
}

proof fn lemma_whole_is_nearest(s: nat, e: nat)
    requires
        e >= 1074,
    ensures
        (2 * (s * pow2(e)) + unit()) / (2 * unit()) == (s * pow2(e)) / unit(),
{
    lemma_scaled_up(s, e);
    lemma_pow2_adds((e - 1074) as nat, 1074);
    lemma_pow2_pos(1074);
    let n = s * pow2((e - 1074) as nat);
    let m = s * pow2(e);
    assert(m == n * unit()) by (nonlinear_arith)
        requires
            m == s * pow2(e),
            pow2(e) == pow2((e - 1074) as nat) * unit(),
            n == s * pow2((e - 1074) as nat),
    ;
    assert(2 * m + unit() == n * (2 * unit()) + unit()) by (nonlinear_arith)
        requires
            m == n * unit(),
    ;
    lemma_fundamental_div_mod_converse(
        (2 * m + unit()) as int,
        (2 * unit()) as int,
        n as int,
        unit() as int,
    );
}

/// The number nearest to a positive natural number is positive.
pub proof fn lemma_of_positive(n: nat)
    requires
        n > 0,
    ensures
        Value::of(n) matches Value::Finite { negative, magnitude } ==> !negative && magnitude
            >= unit(),
        Value::of(n) matches Value::Infinite { negative } ==> !negative,
        Value::of(n) !is Nan,
{
    lemma_of_exact(1);
    lemma_pow2_pos(1074);
    assert((1 * unit()) * 1 <= (n * unit()) * 1) by (nonlinear_arith)
        requires
            n >= 1,
            unit() > 0,
    ;
    rounding::lemma_round_monotone((1 * unit()) as nat, 1, n * unit(), 1);
}

/// Zero over a positive natural number is zero.
pub proof fn lemma_zero_over(n: nat)
    requires
        n > 0,
    ensures
        Value::of(0).over(Value::of(n)) == Value::of(0),
        Value::of(0) == (Value::Finite { negative: false, magnitude: 0 }),
{
    lemma_of_positive(n);
    lemma_of_exact(0);
    lemma_pow2_pos(1074);
    if let Value::Finite { negative, magnitude } = Value::of(n) {
        rounding::lemma_round_same_value(0, magnitude, 0, 1);
        assert(0 * unit() == 0);
    }
}

/// The number nearest to a natural number below 2^128 is finite.
pub proof fn lemma_of_finite(n: nat)
    requires
        n <= u128::MAX,
    ensures
        Value::of(n) matches Value::Finite { negative, magnitude } && !negative && magnitude <= pow2(
            1202,
        ),
{
    lemma_pow2_pos(1074);
    lemma_pow2_adds(128, 1074);
    lemma_pow2_adds(64, 64);
    lemma2_to64();
    lemma2_to64_rest();
    rounding::lemma_representable(1, 1202);
    lemma_pow2_strictly_increases(1202, 2098);
    assert(pow2(128) == 0x1_0000_0000_0000_0000 * 0x1_0000_0000_0000_0000);
    assert((n * unit()) * 1 <= (1 * pow2(1202)) * 1) by (nonlinear_arith)
        requires
            n <= pow2(128),
            pow2(1202) == pow2(128) * unit(),
            unit() > 0,
    ;
    rounding::lemma_round_monotone(n * unit(), 1, (1 * pow2(1202)) as nat, 1);
}

/// A positive natural number below 2^128, rounded, over itself is one.
pub proof fn lemma_over_self(n: nat)
    requires
        0 < n <= u128::MAX,
    ensures
        Value::of(n).over(Value::of(n)) == Value::of(1),
{
    lemma_of_finite(n);
    lemma_of_positive(n);
    lemma_pow2_pos(1074);
    lemma_finite_over_itself(Value::of(n));
}

/// A natural number that is not larger is not larger when it is rounded.
pub proof fn lemma_of_monotone(a: nat, b: nat)
    requires
        a <= b,
    ensures
        rounding::round_quotient(a * unit(), 1) <= rounding::round_quotient(b * unit(), 1),
        !Value::of(b).less(Value::of(a)),
{
    assert((a * unit()) * 1 <= (b * unit()) * 1) by (nonlinear_arith)
        requires
            a <= b,
    ;
    rounding::lemma_round_monotone(a * unit(), 1, b * unit(), 1);
}

/// A finite number other than zero, over itself, is one.
pub proof fn lemma_finite_over_itself(v: Value)
    requires
        v matches Value::Finite { magnitude, .. } && magnitude > 0,
    ensures
        v.over(v) == Value::of(1),
{
    lemma_of_exact(1);
    lemma_pow2_pos(1074);
    if let Value::Finite { negative, magnitude } = v {
        assert((magnitude * unit()) * 1 == (1 * unit()) * magnitude) by (nonlinear_arith);
        rounding::lemma_round_same_value(
            magnitude * unit(),
            magnitude,
            (1 * unit()) as nat,
            1,
        );
    }
}

/// The number nearest to a quotient of numbers below 2^128 is finite.
pub proof fn lemma_ratio_finite(num: nat, den: nat)
    requires
        num <= u128::MAX,
        den > 0,
    ensures
        Value::ratio(num, den) == (Value::Finite {
            negative: false,
            magnitude: rounding::round_quotient(num * unit(), den),
        }),
{
    lemma_of_finite(num);
    lemma_pow2_pos(1074);
    assert((num * unit()) * 1 <= (num * unit()) * den) by (nonlinear_arith)
        requires
            den >= 1,
    ;
    rounding::lemma_round_monotone(num * unit(), den, num * unit(), 1);
    lemma_pow2_strictly_increases(1202, 2098);
}

/// The quotient of two whole numbers of up to 53 bits is the number nearest to
/// their exact quotient.
pub proof fn law_quotient_is_nearest(num: nat, den: nat)
    requires
        num <= SIGNIFICAND_LIMIT,
        0 < den <= SIGNIFICAND_LIMIT,
    ensures
        Value::of(num).over(Value::of(den)) == Value::ratio(num, den),
{
    let u = unit();
    lemma_of_exact(num);
    lemma_of_exact(den);
    lemma_pow2_pos(1074);
    assert(den * u > 0) by (nonlinear_arith)
        requires
            den > 0,
            u > 0,
    ;
    assert(((num * u) * u) * den == (num * u) * (den * u)) by (nonlinear_arith);
    rounding::lemma_round_same_value((num * u) * u, den * u, num * u, den);
}

/// A quotient that is not larger is not larger when it is rounded.
pub proof fn law_ratio_keeps_order(a: nat, b: nat, c: nat, d: nat)
    requires
        b > 0,
        d > 0,
        a <= u128::MAX,
        c <= u128::MAX,
        a * d <= c * b,
    ensures
        !Value::ratio(c, d).less(Value::ratio(a, b)),
        rounding::round_quotient(a * unit(), b) <= rounding::round_quotient(c * unit(), d),
{
    lemma_ratio_finite(a, b);
    lemma_ratio_finite(c, d);
    assert((a * unit()) * d <= (c * unit()) * b) by (nonlinear_arith)
        requires
            a * d <= c * b,
    ;
    rounding::lemma_round_monotone(a * unit(), b, c * unit(), d);
}

/// A quotient with a denominator of up to 20 bits exceeds a whole number of up
/// to 32 bits exactly where it does so before it is rounded.
pub proof fn law_ratio_against_whole(num: nat, den: nat, whole: nat)
    requires
        num <= u128::MAX,
        0 < den <= 0x10_0000,
        whole <= u32::MAX,
    ensures
        Value::of(whole).less(Value::ratio(num, den)) <==> num > whole * den,
{
    let u = unit();
    let fine = pow2(1054);
    lemma_ratio_finite(num, den);
    lemma_of_exact(whole);
    lemma_pow2_pos(1054);
    lemma_pow2_adds(20, 1054);
    lemma2_to64();
    assert(u == 0x10_0000 * fine);
    if num <= whole * den {
        assert(num * u <= (whole * pow2(1074)) * den) by (nonlinear_arith)
            requires
                num <= whole * den,
                u == pow2(1074),
        ;
        rounding::lemma_round_at_most(num * u, den, whole, 1074);
    } else {
        let above = whole * 0x10_0000 + 1;
        assert((above * fine) * den <= num * u) by (nonlinear_arith)
            requires
                above == whole * 0x10_0000 + 1,
                num >= whole * den + 1,
                u == 0x10_0000 * fine,
                den <= 0x10_0000,
        {
            assert(above * den <= num * 0x10_0000);
        }
        rounding::lemma_round_at_least(num * u, den, above, 1054);
        assert(above * fine > whole * u) by (nonlinear_arith)
            requires
                above == whole * 0x10_0000 + 1,
                u == 0x10_0000 * fine,
                fine > 0,
        ;
    }
}

/// Whole numbers of up to 53 bits are ordered as they are before they are
/// numbers, and no number is below itself.
pub proof fn law_whole_numbers_keep_order(a: nat, b: nat)
    requires
        a <= SIGNIFICAND_LIMIT,
        b <= SIGNIFICAND_LIMIT,
    ensures
        Value::of(a).less(Value::of(b)) <==> a < b,
{
    lemma_of_exact(a);
    lemma_of_exact(b);
    lemma_pow2_pos(1074);
    let u = unit();
    assert(a * u < b * u <==> a < b) by (nonlinear_arith)
        requires
            u > 0,
    ;
}

/// The order of numbers is strict and transitive, two numbers that are not in
/// order either way are equal but for the sign of zero, and what is not a
/// number is in no order.
pub proof fn law_order_is_total(a: Value, b: Value, c: Value)
    ensures
        a.less(b) ==> !b.less(a),
        a.less(b) && b.less(c) ==> a.less(c),
        a is Nan ==> !a.less(b) && !b.less(a),
        a !is Nan && b !is Nan && !a.less(b) && !b.less(a) ==> a == b || a.signed() == 0
            && b.signed() == 0 && a is Finite && b is Finite,
{
}

/// Sums, differences and products of whole numbers are exact as long as they
/// have no more than 53 bits.
pub proof fn law_whole_arithmetic_is_exact(a: nat, b: nat)
    requires
        a <= SIGNIFICAND_LIMIT,
        b <= SIGNIFICAND_LIMIT,
    ensures
        a + b <= SIGNIFICAND_LIMIT ==> Value::of(a).plus(Value::of(b)) == Value::of(a + b),
        a >= b ==> Value::of(a).minus(Value::of(b)) == Value::of((a - b) as nat),
        a * b <= SIGNIFICAND_LIMIT ==> Value::of(a).times(Value::of(b)) == Value::of(a * b),
{
    let u = unit();
    lemma_of_exact(a);
    lemma_of_exact(b);
    lemma_pow2_pos(1074);
    if a + b <= SIGNIFICAND_LIMIT {
        lemma_of_exact(a + b);
        rounding::lemma_representable(a + b, 1074);
        assert(a * u + b * u == (a + b) * u) by (nonlinear_arith);
        if a + b == 0 {
            assert(0 * u == 0);
        }
    }
    if a >= b {
        let c = (a - b) as nat;
        lemma_of_exact(c);
        rounding::lemma_representable(c, 1074);
        assert(a * u - b * u == c * u) by (nonlinear_arith)
            requires
                c == a - b,
        ;
        if c == 0 {
            assert(0 * u == 0);
        } else {
            assert(c * u > 0) by (nonlinear_arith)
                requires
                    c > 0,
                    u > 0,
            ;
        }
    }
    if a * b <= SIGNIFICAND_LIMIT {
        lemma_of_exact(a * b);
        rounding::lemma_representable(a * b, 1074);
        assert(((a * u) * (b * u)) * 1 == ((a * b) * u) * u) by (nonlinear_arith);
        rounding::lemma_round_same_value((a * u) * (b * u), u, (a * b) * u, 1);
    }
}

/// A number that is not negative lies at or above its whole part, and less than
/// one above it; its nearest whole number is no more than half away.
pub proof fn law_whole_parts_are_close(magnitude: nat, max: nat)
    requires
        magnitude < max * unit(),
    ensures
        ({
            let v = Value::Finite { negative: false, magnitude };
            &&& v.truncated(max) * unit() <= magnitude < (v.truncated(max) + 1) * unit()
            &&& 2 * magnitude <= (2 * v.nearest_whole(max) + 1) * unit()
            &&& (2 * v.nearest_whole(max) - 1) * unit() <= 2 * magnitude
        }),
{
    let u = unit();
    lemma_pow2_pos(1074);
    lemma_fundamental_div_mod(magnitude as int, u as int);
    lemma_fundamental_div_mod((2 * magnitude + u) as int, (2 * u) as int);
    let f = magnitude / u;
    let n = (2 * magnitude + u) / (2 * u);
    assert(f < max) by (nonlinear_arith)
        requires
            u * f <= magnitude,
            magnitude < max * u,
            u > 0,
    ;
    assert(n <= max) by (nonlinear_arith)
        requires
            (2 * u) * n <= 2 * magnitude + u,
            magnitude < max * u,
            u > 0,
    ;
    assert((f + 1) * u == u * f + u && f * u == u * f) by (nonlinear_arith);
    assert((2 * n + 1) * u == (2 * u) * n + u && (2 * n - 1) * u == (2 * u) * n - u)
        by (nonlinear_arith);
}

/// Of two numbers the smaller and the larger are these two, in order; where one
/// is not a number, both are the other.
pub proof fn law_smaller_and_larger(a: Value, b: Value)
    ensures
        a.smaller(b) == a || a.smaller(b) == b,
        a.larger(b) == a || a.larger(b) == b,
        !a.less(a.smaller(b)) && !b.less(a.smaller(b)),
        !a.larger(b).less(a) && !a.larger(b).less(b),
        b is Nan && a !is Nan ==> a.smaller(b) == a && a.larger(b) == a,
        a is Nan ==> a.smaller(b) == b && a.larger(b) == b,
{
    law_order_is_total(a, b, a);
}

} // verus!
