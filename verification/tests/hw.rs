use candlestore::hw::{
    cache_size_fits, checked_cache_size, detect_cache_line, detect_l3_cache, parse_cache_size,
    readings_fit, Architecture, CacheReading, CacheReadings,
};
use candlestore::{Binary64, Candle, HardwareProfile};

fn d(x: f64) -> Binary64 {
    Binary64::from_bits(x.to_bits())
}

fn f(x: Binary64) -> f64 {
    f64::from_bits(x.to_bits())
}

fn reading(level: &str, size: &str) -> CacheReading {
    CacheReading { level: Some(level.to_string()), size: Some(size.to_string()) }
}

fn machines() -> Vec<(CacheReadings, Architecture)> {
    vec![
        (
            CacheReadings::Listed(vec![
                reading("1\n", "32K\n"),
                reading("1\n", "32K\n"),
                reading("2\n", "1024K\n"),
                reading("3\n", "32M\n"),
            ]),
            Architecture::Other,
        ),
        (CacheReadings::Reported { l3: 0, l2: 12 << 20 }, Architecture::Arm64 { reported_line: 128 }),
        (CacheReadings::Unknown, Architecture::Other),
    ]
}

#[test]
fn detect_returns_plausible_values() {
    for (readings, arch) in machines() {
        let hw = HardwareProfile::detect(&readings, arch);
        assert!(hw.l3_cache_bytes >= 1024 * 1024);
        assert!(hw.l3_cache_bytes <= 512 * 1024 * 1024);
        assert!(hw.cache_line_bytes == 64 || hw.cache_line_bytes == 128);
        assert!(hw.physical_cores >= 1);
        assert_eq!(f(hw.resource_fraction), 1.0 / 3.0);
    }
}

#[test]
fn dedicated_uses_full_resources() {
    for (readings, arch) in machines() {
        let hw = HardwareProfile::dedicated(&readings, arch);
        assert_eq!(f(hw.resource_fraction), 1.0);
        assert_eq!(hw.usable_l3_bytes(), hw.l3_cache_bytes);
        assert_eq!(hw.usable_cores(), hw.physical_cores);
    }
}

#[test]
fn with_fraction_clamps_correctly() {
    for (readings, arch) in machines() {
        let hw = HardwareProfile::detect(&readings, arch).with_fraction(d(0.0));
        assert_eq!(f(hw.resource_fraction), 0.05);

        let hw = HardwareProfile::detect(&readings, arch).with_fraction(d(2.0));
        assert_eq!(f(hw.resource_fraction), 1.0);
    }
}

#[test]
fn shared_uses_one_third_of_l3() {
    for (readings, arch) in machines() {
        let hw = HardwareProfile::detect(&readings, arch);
        let expected = (hw.l3_cache_bytes as f64 / 3.0) as usize;
        assert_eq!(hw.usable_l3_bytes(), expected);
    }
}

#[test]
fn ring_capacity_scales_with_symbols() {
    for (readings, arch) in machines() {
        let hw = HardwareProfile::detect(&readings, arch);
        assert!(hw.ring_capacity_for(10) > hw.ring_capacity_for(100));
    }
}

#[test]
fn ring_capacity_is_clamped() {
    for (readings, arch) in machines() {
        let hw = HardwareProfile::detect(&readings, arch);
        assert!(hw.ring_capacity_for(1) <= 1_000_000);
        assert!(hw.ring_capacity_for(9999) >= 256);
    }
}

#[test]
fn dedicated_gives_larger_capacity_than_shared() {
    for (readings, arch) in machines() {
        let shared = HardwareProfile::detect(&readings, arch);
        let dedicated = HardwareProfile::dedicated(&readings, arch);
        assert!(dedicated.ring_capacity_for(10) >= shared.ring_capacity_for(10));
    }
}

#[test]
fn candles_per_cache_line_is_nonzero() {
    for (readings, arch) in machines() {
        let hw = HardwareProfile::detect(&readings, arch);
        assert!(hw.candles_per_cache_line() >= 1);
        println!(
            "cache_line={}B  candle={}B  fit={}  fraction={:.0}%  usable_l3={}MB",
            hw.cache_line_bytes,
            std::mem::size_of::<Candle>(),
            hw.candles_per_cache_line(),
            f(hw.resource_fraction) * 100.0,
            hw.usable_l3_bytes() / 1024 / 1024,
        );
    }
}

#[test]
fn cache_sizes_are_parsed() {
    assert_eq!(parse_cache_size("32K"), Some(32 * 1024));
    assert_eq!(parse_cache_size("8M"), Some(8 * 1024 * 1024));
    assert_eq!(parse_cache_size("4096"), Some(4096));
    assert_eq!(parse_cache_size("+5K"), Some(5 * 1024));
    assert_eq!(parse_cache_size("12 K"), Some(12 * 1024));
    assert_eq!(parse_cache_size("K"), None);
    assert_eq!(parse_cache_size(""), None);
    assert_eq!(parse_cache_size("12k"), None);
    assert_eq!(parse_cache_size("-1K"), None);
}

#[test]
fn sizes_beyond_the_machine_are_told_apart() {
    assert!(!cache_size_fits("18446744073709551615K"));
    assert_eq!(checked_cache_size("18446744073709551615K"), None);
    assert_eq!(checked_cache_size("2K"), Some(Some(2048)));
    assert_eq!(checked_cache_size("two"), Some(None));
    let huge = CacheReadings::Listed(vec![reading("3", "18446744073709551615M")]);
    assert!(!readings_fit(&huge));
    assert!(HardwareProfile::try_detect(&huge, Architecture::Other, false).is_none());
    let hw = HardwareProfile::try_detect(&CacheReadings::Unknown, Architecture::Other, true).unwrap();
    assert_eq!(hw.l3_cache_bytes, 8 * 1024 * 1024);
}

#[test]
fn only_the_size_that_counts_has_to_fit() {
    let readings =
        CacheReadings::Listed(vec![reading("3", "4M"), reading("3", "18446744073709551615M")]);
    assert!(readings_fit(&readings));
    let hw = HardwareProfile::try_detect(&readings, Architecture::Other, false).unwrap();
    assert_eq!(hw.l3_cache_bytes, 4 * 1024 * 1024);
}

#[test]
fn first_usable_level_three_counts() {
    let readings = CacheReadings::Listed(vec![
        reading("2", "1M"),
        CacheReading { level: Some("3".to_string()), size: None },
        reading("3", "what"),
        reading(" 3\n", " 16M\n"),
        reading("3", "64M"),
    ]);
    assert_eq!(detect_l3_cache(&readings), 16 << 20);
    assert_eq!(detect_l3_cache(&CacheReadings::Reported { l3: 7, l2: 3 }), 7);
    assert_eq!(detect_l3_cache(&CacheReadings::Reported { l3: 0, l2: 3 }), 3);
    assert_eq!(detect_l3_cache(&CacheReadings::Reported { l3: 0, l2: 0 }), 8 << 20);
    assert_eq!(detect_l3_cache(&CacheReadings::Listed(vec![])), 8 << 20);
}

#[test]
fn white_space_beyond_ascii_is_trimmed() {
    let readings = CacheReadings::Listed(vec![reading("\u{2003}3\u{a0}", "\u{3000}16M\u{85}")]);
    assert_eq!(detect_l3_cache(&readings), 16 << 20);
}

#[test]
fn cache_lines_go_by_the_architecture() {
    assert_eq!(detect_cache_line(Architecture::Other), 64);
    assert_eq!(detect_cache_line(Architecture::Arm64 { reported_line: 0 }), 128);
    assert_eq!(detect_cache_line(Architecture::Arm64 { reported_line: 64 }), 64);
}

#[test]
fn capacity_follows_the_formula() {
    let hw = HardwareProfile {
        l3_cache_bytes: 8 << 20,
        cache_line_bytes: 64,
        physical_cores: 8,
        resource_fraction: d(1.0 / 3.0),
    };
    let usable = ((8 << 20) as f64 * (1.0 / 3.0)) as usize;
    assert_eq!(hw.usable_l3_bytes(), usable);
    assert_eq!(hw.ring_capacity_for(10), usable / 10 / 48);
    assert_eq!(hw.ring_capacity_for(10), 5825);
    assert_eq!(hw.usable_cores(), 3);
    assert_eq!(hw.candles_per_cache_line(), 1);
}

#[test]
fn rings_are_as_large_as_fits() {
    let with = |fraction| HardwareProfile {
        l3_cache_bytes: 8 << 20,
        cache_line_bytes: 64,
        physical_cores: 8,
        resource_fraction: d(fraction),
    };
    for symbols in [0, 1, 3, 17, 200] {
        let n = symbols.max(1);
        let mut last = 0;
        for fraction in [0.05, 0.3, 0.5, 1.0] {
            let r = with(fraction).ring_capacity_for(symbols);
            let usable = with(fraction).usable_l3_bytes();
            assert!(r == 256 || 48 * n * r <= usable);
            assert!(r == 1_000_000 || 48 * n * (r + 1) > usable);
            assert!(r >= last);
            last = r;
        }
    }
}
