use quic_transport_qa::binary64::Binary64;
use quic_transport_qa::env::{duration_secs, env_number_or, env_or, Environment};

fn env(pairs: &[(&str, &str)]) -> Environment {
    let mut e = Environment::empty();
    for (k, v) in pairs {
        let number = v.parse::<f64>().ok().map(|x| Binary64::from_bits(x.to_bits()));
        e.capture(k.to_string(), v.to_string(), number);
    }
    e
}

#[test]
fn numbers_read_as_parsed() {
    for text in [
        "0", "7", "+7", "-7", "", "+", "++1", "12a", " 12", "0000012", "65535", "65536",
        "4294967295", "4294967296", "18446744073709551615", "18446744073709551616",
        "99999999999999999999999999", "1.5", "٣",
    ] {
        let e = env(&[("K", text)]);
        assert_eq!(env_or(&e, "K", 42u16), text.parse().unwrap_or(42u16), "{text}");
        assert_eq!(env_or(&e, "K", 42u32), text.parse().unwrap_or(42u32), "{text}");
        assert_eq!(env_or(&e, "K", 42u64), text.parse().unwrap_or(42u64), "{text}");
        assert_eq!(env_or(&e, "K", 42usize), text.parse().unwrap_or(42usize), "{text}");
        assert_eq!(env_or(&e, "K", "d".to_string()), text);
    }
}

#[test]
fn unset_variables_take_the_default() {
    let e = env(&[("A", "1")]);
    assert_eq!(env_or(&e, "B", 9u64), 9);
    assert_eq!(env_or(&e, "B", "d".to_string()), "d");
    assert_eq!(env_number_or(&e, "B", Binary64::ratio(1, 2)), Binary64::ratio(1, 2));
}

#[test]
fn later_captures_count() {
    let mut e = env(&[("A", "1"), ("A", "2")]);
    assert_eq!(env_or(&e, "A", 0u64), 2);
    e.capture("A".to_string(), "x".to_string(), None);
    assert_eq!(env_or(&e, "A", 0u64), 0);
    assert_eq!(e.number("A"), None);
}

#[test]
fn float_variables_keep_their_bits() {
    let e = env(&[("A", "0.05"), ("N", "NaN"), ("T", "abc")]);
    assert_eq!(env_number_or(&e, "A", Binary64::of(1)).to_bits(), 0.05f64.to_bits());
    assert!(f64::from_bits(env_number_or(&e, "N", Binary64::of(1)).to_bits()).is_nan());
    assert_eq!(env_number_or(&e, "T", Binary64::of(1)).to_bits(), 1.0f64.to_bits());
}

#[test]
fn seconds_become_spans() {
    let e = env(&[("S", "8")]);
    assert_eq!(duration_secs(&e, "S", 1).nanos, 8_000_000_000);
    assert_eq!(duration_secs(&e, "T", 3).nanos, 3_000_000_000);
    assert_eq!(duration_secs(&e, "T", u64::MAX).nanos, u64::MAX as u128 * 1_000_000_000);
}
