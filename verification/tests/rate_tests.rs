use rchat::rate::fmt_rate;
use rchat::text::decimal_string;

fn float_rendering(bps: u64) -> String {
    let kbps = bps * 8 / 1000;
    if kbps >= 1000 {
        format!("{:.1} Mbps", kbps as f64 / 1000.0)
    } else {
        format!("{kbps} kbps")
    }
}

#[test]
fn fmt_rate_kbps_below_one_megabit() {
    assert_eq!(fmt_rate(0), "0 kbps");
    assert_eq!(fmt_rate(124), "0 kbps");
    assert_eq!(fmt_rate(125), "1 kbps");
    assert_eq!(fmt_rate(124_999), "999 kbps");
}

#[test]
fn fmt_rate_megabits_with_one_decimal() {
    assert_eq!(fmt_rate(125_000), "1.0 Mbps");
    assert_eq!(fmt_rate(131_250), "1.1 Mbps"); // 1050 kbps: 1.05 as f64 lies above the midpoint
    assert_eq!(fmt_rate(156_250), "1.2 Mbps"); // 1250 kbps: an exact tie goes to the even digit
    assert_eq!(fmt_rate(143_750), "1.1 Mbps"); // 1150 kbps: 1.15 as f64 lies below the midpoint
    assert_eq!(fmt_rate(1_250_000), "10.0 Mbps");
    assert_eq!(fmt_rate(124_993_750), "1000.0 Mbps"); // 999950 kbps rounds up
}

#[test]
fn fmt_rate_agrees_with_float_formatting() {
    let mut bps: u64 = 0;
    while bps < 3_000_000 {
        assert_eq!(fmt_rate(bps), float_rendering(bps), "bps = {bps}");
        bps += 7;
    }
    let mut x: u64 = 0x9E37_79B9_7F4A_7C15;
    for _ in 0..200_000 {
        x ^= x << 13;
        x ^= x >> 7;
        x ^= x << 17;
        let bps = x % (u64::MAX / 8 + 1);
        assert_eq!(fmt_rate(bps), float_rendering(bps), "bps = {bps}");
        let small = x % 2_000_000_000;
        assert_eq!(fmt_rate(small), float_rendering(small), "bps = {small}");
    }
}

#[test]
fn fmt_rate_around_double_precision_limits() {
    for base in [1u64 << 53, 1u64 << 54, (1u64 << 55) - 1000] {
        let kbps_lo = base - 64;
        for k in kbps_lo..kbps_lo + 128 {
            let bps = k * 1000 / 8;
            if bps <= u64::MAX / 8 {
                assert_eq!(fmt_rate(bps), float_rendering(bps), "bps = {bps}");
            }
        }
    }
    assert_eq!(fmt_rate(u64::MAX / 8), float_rendering(u64::MAX / 8));
}

#[test]
fn decimal_numerals() {
    assert_eq!(decimal_string(0), "0");
    assert_eq!(decimal_string(7), "7");
    assert_eq!(decimal_string(10), "10");
    assert_eq!(decimal_string(1234567890), "1234567890");
    assert_eq!(decimal_string(u64::MAX), "18446744073709551615");
}

fn shown_tenths(s: &str) -> u64 {
    let digits = s.strip_suffix(" Mbps").unwrap();
    let (whole, tenth) = digits.split_once('.').unwrap();
    whole.parse::<u64>().unwrap() * 10 + tenth.parse::<u64>().unwrap()
}

#[test]
fn mbps_figure_is_within_half_a_tenth() {
    for kbps in [1000u64, 1049, 1050, 1051, 1150, 1250, 99_950, 999_949, 123_456_789] {
        let t = shown_tenths(&fmt_rate(kbps * 125));
        let shown = 100 * t;
        assert!(shown + 50 >= kbps && shown <= kbps + 50, "kbps = {kbps}");
    }
    assert_eq!(shown_tenths(&fmt_rate(1049 * 125)), 10);
    assert_eq!(shown_tenths(&fmt_rate(1051 * 125)), 11);
}
