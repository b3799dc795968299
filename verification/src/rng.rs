//! A small xorshift generator for the WAN relay.

use vstd::arithmetic::power2::*;
use vstd::prelude::*;

use crate::binary64;
use crate::binary64::Binary64;
use crate::rounding;

verus! {

/// The seed where the clock gives none.
pub const FALLBACK_SEED: u64 = 0x9E37_79B9_7F4A_7C15;

/// 2^53: the number of steps of a unit interval.
pub const UNIT_STEPS: u64 = 0x20_0000_0000_0000;

/// The widest jitter, in milliseconds either way.
pub const MAX_JITTER_MS: u64 = 0x3FFF_FFFF_FFFF_FFFF;

/// One step of the state.
pub open spec fn xorshift(x: u64) -> u64 {
    let a = x ^ (x << 13);
    let b = a ^ (a >> 7);
    b ^ (b << 17)
}

/// What the generator puts out in a state.
pub open spec fn scramble(x: u64) -> u64 {
    x.wrapping_mul(0x2545_F491_4F6C_DD1D)
}

/// What the next draw puts out in a state.
pub open spec fn drawn(x: u64) -> u64 {
    scramble(xorshift(x))
}

/// A draw as a number of the unit interval: its upper 53 bits.
pub open spec fn unit_value(out: u64) -> binary64::Value {
    binary64::Value::of((out >> 11) as nat).over(binary64::Value::of(UNIT_STEPS as nat))
}

/// A draw as a jitter around zero.
pub open spec fn jitter_value(out: u64, jitter_ms: u64) -> int {
    out as int % (2 * jitter_ms + 1) - jitter_ms
}

/// A xorshift64* generator. It has no copies, so that no stream is drawn twice.
#[derive(PartialEq, Eq, Structural, Debug)]
pub struct XorShift {
    pub state: u64,
}

impl XorShift {
    /// A generator seeded from the nanoseconds since the epoch, where the
    /// clock gives them.
    pub fn new(since_epoch_ns: Option<u128>) -> (r: XorShift)
        ensures
            r.state == (match since_epoch_ns {
                Some(ns) => ns as u64,
                None => FALLBACK_SEED,
            }) | 1,
            r.state != 0,
    {
        let seed: u64 = match since_epoch_ns {
            Some(ns) => ns as u64,
            None => FALLBACK_SEED,
        };
        proof {
            assert(seed | 1 != 0) by (bit_vector);
        }
        XorShift { state: seed | 1 }
    }

    /// The next 64 bits.
    pub fn next_u64(&mut self) -> (r: u64)
        ensures
            final(self).state == xorshift(old(self).state),
            r == drawn(old(self).state),
    {
        let mut x: u64 = self.state;
        x = x ^ (x << 13);
        x = x ^ (x >> 7);
        x = x ^ (x << 17);
        self.state = x;
        x.wrapping_mul(0x2545_F491_4F6C_DD1D)
    }

    /// A uniform number in the unit interval, one excluded.
    pub fn next_f64(&mut self) -> (r: Binary64)
        ensures
            final(self).state == xorshift(old(self).state),
            r@ == unit_value(drawn(old(self).state)),
    {
        let out: u64 = self.next_u64();
        Binary64::of((out >> 11) as u128).over(Binary64::of(UNIT_STEPS as u128))
    }

    /// A uniform jitter of up to `jitter_ms` either way.
    pub fn jitter_ms(&mut self, jitter_ms: u64) -> (r: i64)
        requires
            jitter_ms <= MAX_JITTER_MS,
        ensures
            jitter_ms == 0 ==> r == 0 && *final(self) == *old(self),
            jitter_ms > 0 ==> r == jitter_value(drawn(old(self).state), jitter_ms)
                && final(self).state == xorshift(old(self).state),
    {
        if jitter_ms == 0 {
            return 0;
        }
        let span: u64 = jitter_ms * 2 + 1;
        (self.next_u64() % span) as i64 - jitter_ms as i64
    }
}

/// The generator never gets stuck: a state other than zero is followed by
/// one, and every seed gives one.
pub proof fn law_state_stays_alive(x: u64)
    requires
        x != 0,
    ensures
        xorshift(x) != 0,
{
    let a = x ^ (x << 13);
    let b = a ^ (a >> 7);
    assert(x != 0 ==> (x ^ (x << 13)) != 0) by (bit_vector);
    assert(a != 0 ==> (a ^ (a >> 7)) != 0) by (bit_vector);
    assert(b != 0 ==> (b ^ (b << 17)) != 0) by (bit_vector);
}

/// Different states are followed by different states.
pub proof fn law_steps_are_distinct(x: u64, y: u64)
    requires
        x != y,
    ensures
        xorshift(x) != xorshift(y),
{
    let (a, c) = (x ^ (x << 13), y ^ (y << 13));
    let (b, d) = (a ^ (a >> 7), c ^ (c >> 7));
    assert(x != y ==> (x ^ (x << 13)) != (y ^ (y << 13))) by (bit_vector);
    assert(a != c ==> (a ^ (a >> 7)) != (c ^ (c >> 7))) by (bit_vector);
    assert(b != d ==> (b ^ (b << 17)) != (d ^ (d << 17))) by (bit_vector);
}

/// A draw in the unit interval is exact, and below one.
pub proof fn law_unit_draw_is_below_one(out: u64)
    ensures
        unit_value(out) == (binary64::Value::Finite {
            negative: false,
            magnitude: (out >> 11) as nat * pow2(1021),
        }),
        unit_value(out).less(binary64::Value::of(1)),
        !unit_value(out).less(binary64::Value::of(0)),
{
    assert(out >> 11 < 0x20_0000_0000_0000) by (bit_vector);
    let k = (out >> 11) as nat;
    let u = binary64::unit();
    binary64::lemma_of_exact(k);
    binary64::lemma_of_exact(UNIT_STEPS as nat);
    binary64::lemma_of_exact(1);
    binary64::lemma_of_exact(0);
    lemma2_to64();
    lemma2_to64_rest();
    lemma_pow2_pos(1074);
    lemma_pow2_pos(1021);
    lemma_pow2_adds(53, 1021);
    assert(UNIT_STEPS == pow2(53));
    let one = pow2(1021);
    let num = (k * u) * u;
    let den = UNIT_STEPS as nat * u;
    assert(den > 0) by (nonlinear_arith)
        requires
            den == 0x20_0000_0000_0000 * u,
            u > 0,
    ;
    assert(num * 1 == (k * one) * den) by (nonlinear_arith)
        requires
            num == (k * u) * u,
            den == 0x20_0000_0000_0000 * u,
            u == 0x20_0000_0000_0000 * one,
    ;
    rounding::lemma_round_same_value(num, den, k * one, 1);
    rounding::lemma_representable(k, 1021);
    lemma_pow2_strictly_increases(1074, 2098);
    assert(k * one < u) by (nonlinear_arith)
        requires
            k < 0x20_0000_0000_0000,
            u == 0x20_0000_0000_0000 * one,
            one > 0,
    ;
    assert(1 * u == u);
    assert(0 * u == 0);
}

/// A jitter stays within its bound either way, and reaches every value of
/// that range for some draw.
pub proof fn law_jitter_range(out: u64, jitter_ms: u64)
    ensures
        -(jitter_ms as int) <= jitter_value(out, jitter_ms) <= jitter_ms,
        out < 2 * jitter_ms + 1 ==> jitter_value(out, jitter_ms) == out - jitter_ms,
{
    vstd::arithmetic::div_mod::lemma_remainder(out as int, 2 * jitter_ms + 1);
    if out < 2 * jitter_ms + 1 {
        vstd::arithmetic::div_mod::lemma_small_mod(out as nat, (2 * jitter_ms + 1) as nat);
    }
}

/// A jitter is the one number within its bound that differs from the draw by
/// a whole number of spans, counted from the lower bound.
pub proof fn law_jitter_is_the_draw_in_its_range(out: u64, jitter_ms: u64, jitter: int, turns: int)
    requires
        -(jitter_ms as int) <= jitter <= jitter_ms,
        out == jitter + jitter_ms + turns * (2 * jitter_ms + 1),
    ensures
        jitter_value(out, jitter_ms) == jitter,
{
    vstd::arithmetic::div_mod::lemma_fundamental_div_mod_converse(
        out as int,
        2 * jitter_ms + 1,
        turns,
        jitter + jitter_ms,
    );
}

/// A draw in the unit interval is one of 2^53 equal steps, taken from the upper
/// bits of the next output; a jitter lies within its bound either way.
pub proof fn law_draws_are_steps_of_the_unit_interval(
    rng: &mut XorShift,
    r: Binary64,
    other: &mut XorShift,
    jitter_ms: u64,
    jitter: i64,
)
    requires
        call_ensures(XorShift::next_f64, (rng,), r),
        call_ensures(XorShift::jitter_ms, (other, jitter_ms), jitter),
    ensures
        r@ == (binary64::Value::Finite {
            negative: false,
            magnitude: (drawn(old(rng).state) >> 11) as nat * pow2(1021),
        }),
        -(jitter_ms as int) <= jitter <= jitter_ms,
        jitter_ms == 0 ==> final(other).state == old(other).state,
        old(rng).state != 0 ==> final(rng).state != 0 && final(rng).state == xorshift(
            old(rng).state,
        ),
{
    law_unit_draw_is_below_one(drawn(rng.state));
    law_jitter_range(drawn(other.state), jitter_ms);
    if rng.state != 0 {
        law_state_stays_alive(rng.state);
    }
}

} // verus!
