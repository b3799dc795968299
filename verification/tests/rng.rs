use quic_transport_qa::rng::{XorShift, FALLBACK_SEED};

fn step(x: &mut u64) -> u64 {
    *x ^= *x << 13;
    *x ^= *x >> 7;
    *x ^= *x << 17;
    x.wrapping_mul(0x2545_F491_4F6C_DD1D)
}

#[test]
fn seeds_are_odd() {
    assert_eq!(XorShift::new(Some(10)).state, 11);
    assert_eq!(XorShift::new(Some(11)).state, 11);
    assert_eq!(XorShift::new(Some((1u128 << 64) + 4)).state, 5);
    assert_eq!(XorShift::new(None).state, FALLBACK_SEED | 1);
    assert_eq!(XorShift::new(None).state, 0x9E37_79B9_7F4A_7C15);
}

#[test]
fn draws_are_those_of_xorshift() {
    let mut ours = XorShift { state: 1 };
    let mut theirs = 1u64;
    assert_eq!(ours.next_u64(), step(&mut theirs));
    assert_eq!(ours.state, 0x4082_2041);
    for _ in 0..1000 {
        assert_eq!(ours.next_u64(), step(&mut theirs));
        assert_eq!(ours.state, theirs);
        assert_ne!(ours.state, 0);
    }
}

#[test]
fn unit_draws_are_below_one() {
    let mut ours = XorShift::new(Some(42));
    let mut theirs = ours.state;
    for _ in 0..1000 {
        let draw = f64::from_bits(ours.next_f64().to_bits());
        assert_eq!(draw, (step(&mut theirs) >> 11) as f64 / (1u64 << 53) as f64);
        assert!((0.0..1.0).contains(&draw));
    }
}

#[test]
fn jitter_stays_in_its_range() {
    let mut ours = XorShift::new(Some(7));
    let mut theirs = ours.state;
    let before = ours.state;
    assert_eq!(ours.jitter_ms(0), 0);
    assert_eq!(ours.state, before);
    for j in [1u64, 20, 1_000_000] {
        for _ in 0..200 {
            let expected = (step(&mut theirs) % (2 * j + 1)) as i64 - j as i64;
            let got = ours.jitter_ms(j);
            assert_eq!(got, expected);
            assert!(-(j as i64) <= got && got <= j as i64);
        }
    }
}
