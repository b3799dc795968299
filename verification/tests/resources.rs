use quic_transport_qa::resources::{fmt_bytes, growth_pct, peak_rss_bytes};

fn formatted(b: u64) -> String {
    const KB: u64 = 1024;
    const MB: u64 = KB * 1024;
    if b >= MB {
        format!("{:.2} MiB", b as f64 / MB as f64)
    } else if b >= KB {
        format!("{:.2} KiB", b as f64 / KB as f64)
    } else {
        format!("{b} B")
    }
}

#[test]
fn byte_counts_read_as_formatted() {
    assert_eq!(fmt_bytes(0), "0 B");
    assert_eq!(fmt_bytes(1023), "1023 B");
    assert_eq!(fmt_bytes(1024), "1.00 KiB");
    assert_eq!(fmt_bytes(1536), "1.50 KiB");
    assert_eq!(fmt_bytes(1024 * 1024 - 1), "1024.00 KiB");
    assert_eq!(fmt_bytes(1024 * 1024), "1.00 MiB");
    assert_eq!(fmt_bytes(1024 * 1024 + 131072), "1.12 MiB");
    assert_eq!(fmt_bytes(1024 * 1024 + 3 * 131072), "1.38 MiB");
    assert_eq!(fmt_bytes(u64::MAX), "17592186044416.00 MiB");
    let mut b = 1u64;
    for i in 0..4000u64 {
        assert_eq!(fmt_bytes(b), formatted(b));
        b = b.wrapping_mul(6364136223846793005).wrapping_add(1442695040888963407) >> (i % 50);
    }
}

#[test]
fn byte_counts_past_53_bits_round_to_even() {
    for b in [(1u64 << 53) + 1, (1 << 54) + 2, (1 << 63) + 1024, (1 << 63) + 3072, u64::MAX - 1023] {
        assert_eq!(fmt_bytes(b), formatted(b));
    }
}

#[test]
fn peak_rss_scales_by_the_unit_of_the_system() {
    assert_eq!(peak_rss_bytes(0, 4096, false), 4096 * 1024);
    assert_eq!(peak_rss_bytes(0, 4096, true), 4096);
    assert_eq!(peak_rss_bytes(-1, 4096, false), 0);
    assert_eq!(peak_rss_bytes(0, 0, false), 0);
    assert_eq!(peak_rss_bytes(0, -5, true), 0);
    assert_eq!(peak_rss_bytes(0, i64::MAX, false), u64::MAX);
}

#[test]
fn growth_is_the_percentage() {
    let pct = |a: u64, b: u64| f64::from_bits(growth_pct(a, b).to_bits());
    assert_eq!(pct(100, 150), 50.0);
    assert_eq!(pct(0, 150), 0.0);
    assert_eq!(pct(3, 10), ((10.0f64 / 3.0) - 1.0) * 100.0);
    assert_eq!(pct(10, 3), ((3.0f64 / 10.0) - 1.0) * 100.0);
}
