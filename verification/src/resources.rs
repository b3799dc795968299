//! Peak memory: reading a resource usage record, and reporting it.

use vstd::arithmetic::power2::*;
use vstd::prelude::*;

use crate::binary64;
use crate::binary64::Binary64;
use crate::rounding;
use crate::text;

verus! {

/// Bytes in a mebibyte.
pub const MIB: usize = 1048576;

/// The peak resident set size in bytes, from the status that reading the
/// usage record returned and the record's field. The field counts bytes on
/// some systems and kilobytes on others.
pub fn peak_rss_bytes(status: i32, max_rss: i64, counts_bytes: bool) -> (r: u64)
    ensures
        status != 0 || max_rss <= 0 ==> r == 0,
        status == 0 && max_rss > 0 && counts_bytes ==> r == max_rss,
        status == 0 && max_rss > 0 && !counts_bytes ==> r == (if max_rss * 1024 <= u64::MAX {
            max_rss * 1024
        } else {
            u64::MAX as int
        }),
{
    if status != 0 || max_rss <= 0 {
        return 0;
    }
    let raw: u64 = max_rss as u64;
    if counts_bytes {
        raw
    } else {
        match raw.checked_mul(1024) {
            Some(bytes) => bytes,
            None => u64::MAX,
        }
    }
}

/// A number of hundredths with a unit behind it.
pub open spec fn hundredths_text(hundredths: nat, suffix: Seq<char>) -> Seq<char> {
    text::decimal(hundredths / 100) + seq!['.'] + seq![
        text::digit_char((hundredths / 10) % 10),
        text::digit_char(hundredths % 10),
    ] + suffix
}

/// Bytes in binary64, in hundredths of a unit of `scale` bytes.
pub open spec fn hundredths(bytes: nat, scale: nat) -> nat {
    rounding::nearest_even(rounding::round_quotient(bytes, 1) * 100, scale)
}

/// A byte count for people: mebibytes and kibibytes with two decimals, ties
/// to even, and plain bytes below.
pub open spec fn bytes_text(b: nat) -> Seq<char> {
    if b >= 1048576 {
        hundredths_text(hundredths(b, 1048576), " MiB"@)
    } else if b >= 1024 {
        hundredths_text(hundredths(b, 1024), " KiB"@)
    } else {
        text::decimal(b) + " B"@
    }
}

/// A byte count for people.
pub fn fmt_bytes(b: u64) -> (r: String)
    ensures
        r@ == bytes_text(b as nat),
{
    if b >= 1048576 {
        scaled_text(b, 1048576, " MiB")
    } else if b >= 1024 {
        scaled_text(b, 1024, " KiB")
    } else {
        let mut out: String = String::new();
        text::push_decimal(&mut out, b as u128);
        out.append(" B");
        proof {
            assert(out@ =~= bytes_text(b as nat));
        }
        out
    }
}

fn scaled_text(b: u64, scale: u64, suffix: &str) -> (r: String)
    requires
        scale > 0,
    ensures
        r@ == hundredths_text(hundredths(b as nat, scale as nat), suffix@),
{
    let v: u128 = whole_in_53_bits(b);
    let step: u128 = scale as u128;
    let f: u128 = v * 100 / step;
    let rem: u128 = v * 100 % step;
    let count: u128 = if 2 * rem > step || (2 * rem == step && f % 2 == 1) {
        f + 1
    } else {
        f
    };
    let mut out: String = String::new();
    text::push_decimal(&mut out, count / 100);
    out.append(".");
    text::push_decimal(&mut out, (count / 10) % 10);
    text::push_decimal(&mut out, count % 10);
    out.append(suffix);
    proof {
        reveal_strlit(".");
        assert(out@ =~= hundredths_text(count as nat, suffix@));
    }
    out
}

/// A count rounded to 53 significant bits.
fn whole_in_53_bits(b: u64) -> (r: u128)
    ensures
        r == rounding::round_quotient(b as nat, 1),
        r <= 0x1_0000_0000_0000_0000,
{
    let mut f: u64 = b;
    let mut p: u64 = 1;
    let ghost mut k: nat = 0;
    proof {
        lemma2_to64();
        assert(b as nat / 1 == b as nat);
    }
    while f >= rounding::SIGNIFICAND_LIMIT
        invariant
            p == pow2(k),
            f == b as nat / p as nat,
            p <= 2048,
            k > 0 ==> f >= rounding::LEADING_BIT,
            p == 2048 ==> f < rounding::SIGNIFICAND_LIMIT,
            p == 1 || p == 2 || p == 4 || p == 8 || p == 16 || p == 32 || p == 64 || p == 128 || p
                == 256 || p == 512 || p == 1024 || p == 2048,
        decreases f,
    {
        proof {
            lemma_pow2_unfold(k + 1);
            vstd::arithmetic::div_mod::lemma_div_denominator(b as int, p as int, 2);
            k = k + 1;
        }
        f = f / 2;
        p = p * 2;
    }
    let rem: u64 = b % p;
    let up: bool = 2 * rem > p || (2 * rem == p && f % 2 == 1);
    let count: u64 = if up {
        f + 1
    } else {
        f
    };
    proof {
        lemma2_to64();
        rounding::lemma_round_split(b as nat, 1, 0, k, 0, 0, k);
        assert((b as nat * 1 + 0) * pow2(0) == b as nat);
        assert(1 * pow2(0) == 1);
        assert(count * p <= 0x20_0000_0000_0000 * 2048) by (nonlinear_arith)
            requires
                0 <= count <= 0x20_0000_0000_0000,
                0 <= p <= 2048,
        ;
    }
    count as u128 * p as u128
}

/// Growth from one size to another, in percent.
pub open spec fn growth_value(before: nat, after: nat) -> binary64::Value {
    if before == 0 {
        binary64::Value::of(0)
    } else {
        binary64::Value::of(after).over(binary64::Value::of(before)).minus(
            binary64::Value::of(1),
        ).times(binary64::Value::of(100))
    }
}

/// Growth from one size to another, in percent; none where the first is zero.
pub fn growth_pct(before: u64, after: u64) -> (r: Binary64)
    ensures
        r@ == growth_value(before as nat, after as nat),
{
    if before > 0 {
        let quotient: Binary64 = Binary64::of(after as u128).over(Binary64::of(before as u128));
        quotient.minus(Binary64::of(1)).times(Binary64::of(100))
    } else {
        Binary64::of(0)
    }
}

/// Memory that does not change shows no growth.
pub proof fn law_flat_memory_shows_no_growth(bytes: u64)
    ensures
        growth_value(bytes as nat, bytes as nat) == binary64::Value::of(0),
{
    binary64::lemma_of_exact(0);
    binary64::lemma_of_exact(1);
    binary64::lemma_of_exact(100);
    if bytes > 0 {
        binary64::lemma_over_self(bytes as nat);
        lemma_pow2_pos(1074);
        lemma_pow2_pos(2098);
        let u = binary64::unit();
        assert(0 * (100 * u) == 0);
        rounding::lemma_round_same_value(0, u, 0, 1);
        rounding::lemma_representable(0, 0);
        assert(0 * pow2(0) == 0);
    }
}

/// Growth is the percentage by which the second size exceeds the first: in
/// steps of 2^-20 of the first size it is exact to within one step.
pub proof fn law_growth_is_the_excess_in_percent(before: nat, after: nat)
    requires
        0 < before <= after,
        after <= 0x400_0000 * before,
        after <= rounding::SIGNIFICAND_LIMIT,
    ensures
        growth_value(before, after) matches binary64::Value::Finite { negative, magnitude } && !negative
            && {
            let steps = ((after - before) * 0x10_0000) / (before as int);
            (100 * steps) * pow2(1054) <= magnitude <= (100 * (steps + 1)) * pow2(1054)
        },
{
    let u = binary64::unit();
    let fine = pow2(1054);
    let grid = 0x10_0000nat;
    lemma_pow2_pos(1074);
    lemma_pow2_pos(1054);
    lemma_pow2_adds(20, 1054);
    lemma2_to64();
    assert(u == grid * fine);
    binary64::law_quotient_is_nearest(after, before);
    binary64::lemma_ratio_finite(after, before);
    binary64::lemma_of_exact(1);
    binary64::lemma_of_exact(100);
    let excess = (after - before) as nat;
    let steps = excess * grid / before;
    vstd::arithmetic::div_mod::lemma_fundamental_div_mod((excess * grid) as int, before as int);
    let m = rounding::round_quotient(after * u, before);
    let low = grid + steps;
    assert((low * fine) * before <= after * u && after * u <= ((low + 1) * fine) * before)
        by (nonlinear_arith)
        requires
            low == grid + steps,
            after == before + excess,
            u == grid * fine,
            before * steps <= excess * grid,
            excess * grid <= before * steps + before,
    {
        assert(low * before <= after * grid);
        assert(after * grid <= (low + 1) * before);
    }
    assert(steps <= 0x400_0000 * grid) by (nonlinear_arith)
        requires
            before * steps <= excess * grid,
            excess <= 0x400_0000 * before,
            before > 0,
    ;
    rounding::lemma_round_at_least(after * u, before, low, 1054);
    rounding::lemma_round_at_most(after * u, before, low + 1, 1054);
    // One is taken off.
    let rest = (m - u) as nat;
    assert(low * fine == u + steps * fine && (low + 1) * fine == u + (steps + 1) * fine)
        by (nonlinear_arith)
        requires
            low == grid + steps,
            u == grid * fine,
    ;
    rounding::lemma_round_at_least(rest, 1, steps, 1054);
    rounding::lemma_round_at_most(rest, 1, steps + 1, 1054);
    let grown = if rest == 0 {
        0
    } else {
        rounding::round_quotient(rest, 1)
    };
    assert(steps * fine <= grown <= (steps + 1) * fine);
    // And percent made of it.
    assert(((100 * steps) * fine) * u <= grown * (100 * u) && grown * (100 * u) <= ((100 * (steps
        + 1)) * fine) * u) by (nonlinear_arith)
        requires
            steps * fine <= grown,
            grown <= (steps + 1) * fine,
    ;
    rounding::lemma_round_at_least(grown * (100 * u), u, 100 * steps, 1054);
    rounding::lemma_round_at_most(grown * (100 * u), u, 100 * (steps + 1), 1054);
    lemma_pow2_adds(64, 1054);
    lemma2_to64_rest();
    lemma_pow2_strictly_increases(1118, 2098);
    assert((100 * (steps + 1)) * fine <= pow2(64) * fine) by (nonlinear_arith)
        requires
            100 * (steps + 1) <= pow2(64),
    ;
    assert((steps + 1) * fine <= pow2(64) * fine) by (nonlinear_arith)
        requires
            steps + 1 <= pow2(64),
    ;
}

/// Memory that shrinks shows no growth above zero, and memory that was zero
/// shows none at all.
pub proof fn law_shrinking_memory_shows_no_growth(before: nat, after: nat)
    requires
        after <= before <= rounding::SIGNIFICAND_LIMIT,
    ensures
        !binary64::Value::of(0).less(growth_value(before, after)),
        growth_value(0, after) == binary64::Value::of(0),
{
    let u = binary64::unit();
    binary64::lemma_of_exact(0);
    lemma_pow2_pos(1074);
    if before > 0 {
        binary64::law_quotient_is_nearest(after, before);
        binary64::lemma_ratio_finite(after, before);
        binary64::lemma_of_exact(1);
        binary64::lemma_of_exact(100);
        assert(after * u <= (1 * pow2(1074)) * before) by (nonlinear_arith)
            requires
                after <= before,
                u == pow2(1074),
        ;
        rounding::lemma_round_at_most(after * u, before, 1, 1074);
        rounding::lemma_representable(0, 0);
        assert(0 * pow2(0) == 0);
        assert(0 * (100 * u) == 0) by (nonlinear_arith);
        rounding::lemma_round_same_value(0, u, 0, 1);
        lemma_pow2_pos(2098);
    }
}

/// A size is shown to the nearest hundredth of its unit.
pub proof fn law_hundredths_are_nearest(bytes: nat, scale: nat)
    requires
        bytes <= rounding::SIGNIFICAND_LIMIT,
        scale > 0,
    ensures
        -(scale as int) <= 2 * (hundredths(bytes, scale) * scale - bytes * 100) <= scale,
{
    rounding::lemma_representable(bytes, 0);
    lemma2_to64();
    assert(bytes * pow2(0) == bytes);
    let num = bytes * 100;
    vstd::arithmetic::div_mod::lemma_fundamental_div_mod(num as int, scale as int);
    let f = num / scale;
    let r = num % scale;
    let h = hundredths(bytes, scale);
    assert(-(scale as int) <= 2 * (h * scale - num) <= scale) by (nonlinear_arith)
        requires
            num == scale * f + r,
            0 <= r < scale,
            h == f && 2 * r <= scale || h == f + 1 && 2 * r >= scale,
    ;
}

/// More memory is no less growth.
pub proof fn law_more_memory_is_no_less_growth(before: nat, after: nat, more: nat)
    requires
        0 < before <= rounding::SIGNIFICAND_LIMIT,
        after <= more <= rounding::SIGNIFICAND_LIMIT,
    ensures
        !growth_value(before, more).less(growth_value(before, after)),
{
    let u = binary64::unit();
    lemma_pow2_pos(1074);
    binary64::law_quotient_is_nearest(after, before);
    binary64::law_quotient_is_nearest(more, before);
    binary64::lemma_ratio_finite(after, before);
    binary64::lemma_ratio_finite(more, before);
    binary64::lemma_of_exact(1);
    binary64::lemma_of_exact(100);
    assert(after * before <= more * before) by (nonlinear_arith)
        requires
            after <= more,
    ;
    binary64::law_ratio_keeps_order(after, before, more, before);
    let a = rounding::round_quotient(after * u, before);
    let b = rounding::round_quotient(more * u, before);
    let one = (1 * u) as nat;
    // What is taken off, and made percent of.
    if a >= one {
        let (x, y) = ((a - one) as nat, (b - one) as nat);
        rounding::lemma_round_monotone(x, 1, y, 1);
        let (rx, ry) = (
            if x == 0 {
                0
            } else {
                rounding::round_quotient(x, 1)
            },
            if y == 0 {
                0
            } else {
                rounding::round_quotient(y, 1)
            },
        );
        assert(rx <= ry);
        assert((rx * (100 * u)) * u <= (ry * (100 * u)) * u) by (nonlinear_arith)
            requires
                rx <= ry,
        ;
        rounding::lemma_round_monotone(rx * (100 * u), u, ry * (100 * u), u);
    } else if b < one {
        let (x, y) = ((one - a) as nat, (one - b) as nat);
        rounding::lemma_round_monotone(y, 1, x, 1);
        let (rx, ry) = (rounding::round_quotient(x, 1), rounding::round_quotient(y, 1));
        assert((ry * (100 * u)) * u <= (rx * (100 * u)) * u) by (nonlinear_arith)
            requires
                ry <= rx,
        ;
        rounding::lemma_round_monotone(ry * (100 * u), u, rx * (100 * u), u);
    }
}

/// A size is shown in bytes below a kibibyte, in kibibytes below a mebibyte, and
/// else in mebibytes; the last two with two digits behind the point.
pub proof fn law_sizes_are_shown_in_their_unit(b: nat)
    ensures
        b < 1024 ==> bytes_text(b) == text::decimal(b) + " B"@,
        1024 <= b < 1_048_576 ==> bytes_text(b) == text::decimal(hundredths(b, 1024) / 100)
            + seq!['.'] + seq![
            text::digit_char(hundredths(b, 1024) % 100 / 10),
            text::digit_char(hundredths(b, 1024) % 10),
        ] + " KiB"@,
        b >= 1_048_576 ==> bytes_text(b) == text::decimal(hundredths(b, 1_048_576) / 100)
            + seq!['.'] + seq![
            text::digit_char(hundredths(b, 1_048_576) % 100 / 10),
            text::digit_char(hundredths(b, 1_048_576) % 10),
        ] + " MiB"@,
{
    lemma_tens(hundredths(b, 1024));
    lemma_tens(hundredths(b, 1_048_576));
}

proof fn lemma_tens(n: nat)
    ensures
        (n / 10) % 10 == n % 100 / 10,
{
}

/// The peak memory is the field of the record in bytes, and zero where there is
/// no record or nothing in it; it is never less than the field.
pub proof fn law_peak_memory_is_the_field(status: i32, max_rss: i64, bytes: u64, kilobytes: u64)
    requires
        call_ensures(peak_rss_bytes, (status, max_rss, true), bytes),
        call_ensures(peak_rss_bytes, (status, max_rss, false), kilobytes),
    ensures
        status != 0 || max_rss <= 0 ==> bytes == 0 && kilobytes == 0,
        status == 0 && max_rss > 0 ==> bytes == max_rss && kilobytes >= bytes,
        status == 0 && 0 < max_rss <= 0x3F_FFFF_FFFF_FFFF ==> kilobytes == 1024 * bytes,
{
}

} // verus!
