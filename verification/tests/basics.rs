use lib::fields::{field, tb_value};
use lib::size::gb;
use lib::text::is_whitespace;
use lib::usage::parse_count;
use lib::wifi::{signal_quality, wifi_generation};

/// The size text as the report computes it with `f64` arithmetic.
fn gb_by_float(bytes: u64) -> String {
    let g = bytes as f64 / 1024.0 / 1024.0 / 1024.0;
    if g >= 100.0 {
        format!("{} GB", g.round() as u64)
    } else {
        format!("{:.1} GB", g)
    }
}

#[test]
fn whitespace_matches_std() {
    for code in 0u32..0x110000 {
        if let Some(c) = char::from_u32(code) {
            assert_eq!(is_whitespace(c), c.is_whitespace(), "U+{:04X}", code);
        }
    }
}

#[test]
fn field_takes_first_matching_line() {
    let info = "   Device Identifier:        disk0\n   Device / Media Name:      APPLE SSD AP0512Z\n\n   SMART Status:             Verified\n   SMART Status:             Failing\n";
    assert_eq!(field(info, "SMART Status:").as_deref(), Some("Verified"));
    assert_eq!(field(info, "Device / Media Name:").as_deref(), Some("APPLE SSD AP0512Z"));
    assert_eq!(field(info, "Protocol:"), None);
}

#[test]
fn field_drops_colons_and_spaces() {
    assert_eq!(field("gateway: 192.168.1.1\n", "gateway").as_deref(), Some("192.168.1.1"));
    assert_eq!(field(" displaysleep         20\r\n", "displaysleep").as_deref(), Some("20"));
    assert_eq!(field("key::: v \n", "key").as_deref(), Some("v"));
    assert_eq!(field("key\n", "key").as_deref(), Some(""));
}

#[test]
fn tb_value_prefers_brackets() {
    assert_eq!(tb_value("428,083,309 [219 TB]"), "219 TB");
    assert_eq!(tb_value("101,234,567 [ 52.0 TB ]"), "52.0 TB");
    assert_eq!(tb_value("1,234"), "1,234");
    assert_eq!(tb_value("[unclosed"), "[unclosed");
    assert_eq!(tb_value("a] [b]"), "b");
}

#[test]
fn gb_formats_like_float_arithmetic() {
    assert_eq!(gb(17179869184), "16.0 GB");
    assert_eq!(gb(0), "0.0 GB");
    assert_eq!(gb(268435456), "0.2 GB");
    assert_eq!(gb(3 * 268435456), "0.8 GB");
    assert_eq!(gb(100 * 1073741824), "100 GB");
    assert_eq!(gb(100 * 1073741824 - 1), "100.0 GB");
    assert_eq!(gb(500_277_790_720), "466 GB");
    let mut edge: Vec<u64> = vec![
        u64::MAX,
        u64::MAX - 1,
        1 << 53,
        (1 << 53) + 1,
        (1 << 53) - 1,
        (1 << 63) + (1 << 29),
        (1 << 63) + (1 << 29) - 1,
        1073741824 / 2,
        1073741824 * 99 + 1073741824 / 2,
        1073741824 * 150 + 1073741824 / 2,
    ];
    let mut x: u64 = 0x9E3779B97F4A7C15;
    for _ in 0..20000 {
        x = x.wrapping_mul(6364136223846793005).wrapping_add(1442695040888963407);
        edge.push(x >> (x % 64));
        edge.push(x % (200 * 1073741824));
    }
    for b in edge {
        assert_eq!(gb(b), gb_by_float(b), "bytes {}", b);
    }
}

#[test]
fn gb_whole_gibibytes() {
    for k in [1u64, 7, 16, 99] {
        assert_eq!(gb(k * 1073741824), format!("{}.0 GB", k));
    }
    for k in [100u64, 256, 1000, 8000000] {
        assert_eq!(gb(k * 1073741824), format!("{} GB", k));
    }
}

#[test]
fn signal_words() {
    assert_eq!(signal_quality(-55), "strong");
    assert_eq!(signal_quality(-50), "excellent");
    assert_eq!(signal_quality(-51), "strong");
    assert_eq!(signal_quality(-60), "strong");
    assert_eq!(signal_quality(-61), "fair");
    assert_eq!(signal_quality(-70), "fair");
    assert_eq!(signal_quality(-71), "weak");
    assert_eq!(signal_quality(-80), "weak");
    assert_eq!(signal_quality(-81), "very weak");
    assert_eq!(signal_quality(i32::MIN), "very weak");
}

#[test]
fn signal_words_never_worsen_as_signal_grows() {
    let rank = |w: &str| ["very weak", "weak", "fair", "strong", "excellent"].iter().position(|x| *x == w).unwrap();
    for d in -120..0 {
        assert!(rank(signal_quality(d)) <= rank(signal_quality(d + 1)));
    }
}

#[test]
fn wifi_generations() {
    assert_eq!(wifi_generation("802.11ax"), "Wi-Fi 6");
    assert_eq!(wifi_generation("802.11ac"), "Wi-Fi 5");
    assert_eq!(wifi_generation("802.11a/n"), "Wi-Fi 4");
    assert_eq!(wifi_generation("802.11g"), "Wi-Fi 3");
    assert_eq!(wifi_generation("802.11b"), "Wi-Fi 2");
    assert_eq!(wifi_generation("802.11a"), "802.11");
    assert_eq!(wifi_generation(""), "802.11");
}

#[test]
fn counts_parse_as_u64() {
    assert_eq!(parse_count(" 10\n"), Some(10));
    assert_eq!(parse_count("17179869184"), Some(17179869184));
    assert_eq!(parse_count("+5"), Some(5));
    assert_eq!(parse_count("-1"), None);
    assert_eq!(parse_count("-0"), None);
    assert_eq!(parse_count(""), None);
    assert_eq!(parse_count("+"), None);
    assert_eq!(parse_count("1 2"), None);
    assert_eq!(parse_count("18446744073709551615"), Some(u64::MAX));
    assert_eq!(parse_count("18446744073709551616"), None);
    assert_eq!(parse_count("00042"), Some(42));
}
