//! The integer arithmetic against the hardware's.

use quic_transport_qa::binary64::Binary64;

fn next(state: &mut u64) -> u64 {
    let mut x = *state;
    x ^= x << 13;
    x ^= x >> 7;
    x ^= x << 17;
    *state = x;
    x.wrapping_mul(0x2545_F491_4F6C_DD1D)
}

fn number(v: f64) -> Binary64 {
    Binary64::from_bits(v.to_bits())
}

fn same(ours: Binary64, theirs: f64) -> bool {
    let v = f64::from_bits(ours.to_bits());
    (v.is_nan() && theirs.is_nan()) || v.to_bits() == theirs.to_bits()
}

fn samples() -> Vec<f64> {
    let mut out = vec![
        0.0,
        -0.0,
        1.0,
        -1.0,
        0.5,
        0.1,
        0.95,
        0.3,
        100.0,
        1e9,
        1e6,
        0.001,
        f64::INFINITY,
        f64::NEG_INFINITY,
        f64::NAN,
        f64::MIN_POSITIVE,
        f64::MAX,
        f64::MIN,
        f64::EPSILON,
        f64::from_bits(1),
        f64::from_bits(0x000F_FFFF_FFFF_FFFF),
        f64::from_bits(0x0010_0000_0000_0001),
        9007199254740992.0,
        9007199254740991.0,
        1.7976931348623157e308,
        2.2250738585072014e-308,
    ];
    let mut s = 0x1234_5678_9ABC_DEF1u64;
    for _ in 0..60 {
        out.push(f64::from_bits(next(&mut s)));
    }
    for _ in 0..60 {
        let e = 1023 - 60 + next(&mut s) % 120;
        out.push(f64::from_bits((e << 52) | (next(&mut s) >> 12) | (next(&mut s) & (1 << 63))));
    }
    out
}

#[test]
fn sums_are_those_of_the_hardware() {
    for a in samples() {
        for b in samples() {
            assert!(same(number(a).plus(number(b)), a + b), "{a:e} + {b:e}");
            assert!(same(number(a).minus(number(b)), a - b), "{a:e} - {b:e}");
        }
    }
}

#[test]
fn products_are_those_of_the_hardware() {
    for a in samples() {
        for b in samples() {
            assert!(same(number(a).times(number(b)), a * b), "{a:e} * {b:e}");
        }
    }
}

#[test]
fn quotients_are_those_of_the_hardware() {
    for a in samples() {
        for b in samples() {
            assert!(same(number(a).over(number(b)), a / b), "{a:e} / {b:e}");
        }
    }
}

#[test]
fn orderings_are_those_of_the_hardware() {
    for a in samples() {
        for b in samples() {
            assert_eq!(number(a).less(number(b)), a < b);
            if a != b {
                assert!(same(number(a).smaller(number(b)), a.min(b)), "min {a:e} {b:e}");
                assert!(same(number(a).larger(number(b)), a.max(b)), "max {a:e} {b:e}");
            }
        }
    }
}

#[test]
fn whole_numbers_convert_as_casts_do() {
    let mut s = 77u64;
    let mut cases = vec![0u128, 1, 2, 1 << 53, (1 << 53) + 1, (1 << 54) + 3, u64::MAX as u128, u128::MAX];
    for _ in 0..500 {
        let wide = ((next(&mut s) as u128) << 64) | next(&mut s) as u128;
        cases.push(wide >> (next(&mut s) % 128));
    }
    for n in cases {
        assert!(same(Binary64::of(n), n as f64), "{n}");
    }
}

#[test]
fn fractions_drop_and_round_as_casts_do() {
    for a in samples() {
        assert_eq!(number(a).truncate(u64::MAX), a as u64, "{a:e}");
        assert_eq!(number(a).nearest_whole(u64::MAX), a.round() as u64, "{a:e}");
        assert_eq!(number(a).truncate(1000), (a as u64).min(1000), "{a:e}");
    }
    assert_eq!(number(9.5).nearest_whole(u64::MAX), 10);
    assert_eq!(number(2.5).nearest_whole(u64::MAX), 3);
    assert_eq!(number(0.49999999999999994).nearest_whole(u64::MAX), 0);
}

#[test]
fn ratios_are_the_decimal_literals() {
    assert!(same(Binary64::ratio(95, 100), 0.95));
    assert!(same(Binary64::ratio(99, 100), 0.99));
    assert!(same(Binary64::ratio(1, 1000), 0.001));
    assert!(same(Binary64::ratio(30, 100), 0.30));
    assert!(same(Binary64::ratio(5, 100), 0.05));
    assert!(same(Binary64::ratio(85, 100), 0.85));
}

#[test]
fn negation_flips_the_sign() {
    assert!(same(number(1.5).negate(), -1.5));
    assert!(same(number(-0.0).negate(), 0.0));
    assert!(same(number(f64::INFINITY).negate(), f64::NEG_INFINITY));
}
