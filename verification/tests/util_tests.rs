//! Sizes and durations, read and written.

use diskpulse::errors::ParseError;
use diskpulse::util::{
    device_id, first_alphabetic, format_bytes, format_duration, parse_duration, parse_number,
    parse_size, physical_disk_size, Duration, Metadata, Timestamp,
};

fn size_error(input: &str) -> String {
    match parse_size(input) {
        Err(ParseError::InvalidByteSize { input: echoed, reason }) => {
            assert_eq!(echoed, input);
            reason
        }
        other => panic!("{input}: {other:?}"),
    }
}

fn duration_error(input: &str) -> String {
    match parse_duration(input) {
        Err(ParseError::InvalidDuration { input: echoed, reason }) => {
            assert_eq!(echoed, input);
            reason
        }
        other => panic!("{input}: {other:?}"),
    }
}

fn seconds(input: &str) -> i64 {
    parse_duration(input).expect(input).seconds
}

#[test]
fn sizes_are_binary_multiples() {
    assert_eq!(parse_size("512"), Ok(512));
    assert_eq!(parse_size("100K"), Ok(102_400));
    assert_eq!(parse_size("1.5G"), Ok(1_610_612_736));
    assert_eq!(parse_size("  10 MiB "), Ok(10_485_760));
    assert_eq!(parse_size("2tb"), Ok(2_199_023_255_552));
    assert_eq!(parse_size("3P"), Ok(3_377_699_720_527_872));
    assert_eq!(parse_size("7b"), Ok(7));
    assert_eq!(parse_size("+4k"), Ok(4_096));
    assert_eq!(parse_size("-0K"), Ok(0));
    assert_eq!(parse_size(".5K"), Ok(512));
    assert_eq!(parse_size("1.K"), Ok(1_024));
    assert_eq!(parse_size("1.9"), Ok(1));
}

#[test]
fn sizes_are_exact_up_to_the_64_bit_range() {
    assert_eq!(parse_size("9007199254740993"), Ok(9_007_199_254_740_993));
    assert_eq!(parse_size("18446744073709551615"), Ok(u64::MAX));
    assert_eq!(
        size_error("18446744073709551616"),
        "value exceeds the 64-bit range"
    );
    assert_eq!(parse_size("16383P"), Ok(16_383 << 50));
    assert_eq!(size_error("16385P"), "value exceeds the 64-bit range");
    for n in [0_u64, 1, 9, 10, 1_024, 999_999_937, 4_294_967_295] {
        assert_eq!(parse_size(&format!("{n}")), Ok(n));
        assert_eq!(parse_size(&format!("{n}Kib")), Ok(n * 1_024));
    }
}

#[test]
fn malformed_sizes_say_why() {
    assert_eq!(size_error(""), "value is empty");
    assert_eq!(size_error("  \t"), "value is empty");
    assert_eq!(size_error("K"), "expected a leading number");
    assert_eq!(size_error("1.2.3M"), "expected a leading number");
    assert_eq!(size_error("."), "expected a leading number");
    assert_eq!(size_error("1 0K"), "expected a leading number");
    assert_eq!(size_error("inf"), "expected a leading number");
    assert_eq!(size_error("-5M"), "must be a non-negative finite number");
    assert_eq!(
        size_error("100XYZ"),
        "unknown unit \"xyz\"; expected B, K, M, G, T or P (optionally KiB/MiB/GiB/TiB/PiB)"
    );
    assert_eq!(
        size_error("1e5\"\t"),
        "unknown unit \"e5\\\"\"; expected B, K, M, G, T or P (optionally KiB/MiB/GiB/TiB/PiB)"
    );
}

#[test]
fn numbers_beyond_double_precision_are_not_finite() {
    // Halfway between the largest double and the next power of two.
    let halfway = [
        "179769313486231580793728971405303415079934132710037826936173778980444968292764",
        "750946649017977587207096330286416692887910946555547851940402630657488671505820",
        "681908902000708383676273854845817711531764475730270069855571366959622842914819",
        "860834936475292719074168444365510704342711559699508093042880177904174497792",
    ]
    .concat();
    assert!(halfway.parse::<f64>().unwrap().is_infinite());
    assert_eq!(size_error(&halfway), "must be a non-negative finite number");
    let below = format!("{}1", &halfway[..308]);
    assert!(below.parse::<f64>().unwrap().is_finite());
    assert_eq!(size_error(&below), "value exceeds the 64-bit range");
    let huge = "9".repeat(309);
    assert_eq!(size_error(&huge), "must be a non-negative finite number");
    assert_eq!(
        duration_error(&format!("{huge}d")),
        "must be a non-negative finite number"
    );
    let large = format!("1{}", "0".repeat(308));
    assert!(large.parse::<f64>().unwrap().is_finite());
    assert_eq!(size_error(&large), "value exceeds the 64-bit range");
    assert_eq!(
        duration_error(&format!("{large}d")),
        "duration must be non-negative and within the supported range"
    );
}

#[test]
fn negative_numbers_may_vanish() {
    for zeros in [0_usize, 1, 100, 321, 322, 323, 324, 325, 400] {
        for tail in ["1", "2", "24", "25", "2470328229206232720", "2470328229206232721", "9"] {
            let number = format!("-0.{}{tail}", "0".repeat(zeros));
            let vanishes = number.parse::<f64>().unwrap() == 0.0;
            assert_eq!(parse_size(&number) == Ok(0), vanishes, "{number}");
            assert_eq!(parse_duration(&format!("{number}d")).is_ok(), vanishes, "{number}");
        }
    }
    assert_eq!(parse_size("-0"), Ok(0));
    assert_eq!(parse_size("-0.0G"), Ok(0));
    assert_eq!(size_error("-1.0"), "must be a non-negative finite number");
}

#[test]
fn durations_count_seconds() {
    assert_eq!(seconds("45s"), 45);
    assert_eq!(seconds("45 m"), seconds("45m"));
    assert_eq!(seconds("12h"), 43_200);
    assert_eq!(seconds("30d"), 2_592_000);
    assert_eq!(seconds("2w"), 1_209_600);
    assert_eq!(seconds("1mo"), 2_592_000);
    assert_eq!(seconds("1y"), 31_536_000);
    assert_eq!(seconds("1.5h"), 5_400);
    assert_eq!(seconds("0.5s"), 0);
    assert_eq!(seconds("90 Seconds"), 90);
    assert_eq!(seconds("3 MINUTES"), 180);
    assert_eq!(seconds("1 hr"), 3_600);
    assert_eq!(seconds("2 weeks"), 1_209_600);
    assert_eq!(seconds("2 months"), 5_184_000);
    assert_eq!(seconds("2 years"), 63_072_000);
    for n in [0_i64, 1, 7, 365, 10_000, 99_999_999] {
        assert_eq!(seconds(&format!("{n}Days")), n * 86_400);
    }
}

#[test]
fn malformed_durations_say_why() {
    assert_eq!(duration_error(""), "value is empty");
    assert_eq!(
        duration_error("30"),
        "missing unit; expected e.g. \"30d\", \"12h\" or \"45m\""
    );
    assert_eq!(duration_error("d"), "expected a leading number");
    assert_eq!(duration_error("-1d"), "must be a non-negative finite number");
    assert_eq!(
        duration_error("5Fortnights"),
        "unknown unit \"fortnights\"; expected s, m, h, d, w, mo or y"
    );
    assert_eq!(seconds("9223372036854774s"), 9_223_372_036_854_774);
    assert_eq!(
        duration_error("9223372036854777s"),
        "duration must be non-negative and within the supported range"
    );
    assert_eq!(
        duration_error("300000000000y"),
        "duration must be non-negative and within the supported range"
    );
    assert_eq!(
        duration_error("99999999999999999999s"),
        "duration must be non-negative and within the supported range"
    );
}

fn scrambled(seed: u64) -> u64 {
    let mut x = seed.wrapping_mul(0x9e37_79b9_7f4a_7c15).wrapping_add(0x1234_5678_9abc_def1);
    x ^= x >> 30;
    x = x.wrapping_mul(0xbf58_476d_1ce4_e5b9);
    x ^= x >> 27;
    x = x.wrapping_mul(0x94d0_49bb_1331_11eb);
    x ^ (x >> 31)
}

fn check_duration(number: &str, unit: &str, factor: f64) {
    let product = number.parse::<f64>().unwrap() * factor;
    let text = format!("{number}{unit}");
    if product < 9_223_372_036_854_775.0 {
        assert_eq!(seconds(&text), product as i64, "{text}");
    } else {
        assert!(parse_duration(&text).is_err(), "{text}");
    }
}

#[test]
fn durations_round_like_double_precision() {
    assert_eq!(seconds("2.05m"), 122);
    assert_eq!(seconds("0.565h"), 2_033);
    let units = [
        ("s", 1.0),
        ("m", 60.0),
        ("h", 3_600.0),
        ("d", 86_400.0),
        ("w", 604_800.0),
        ("mo", 2_592_000.0),
        ("y", 31_536_000.0),
    ];
    for i in 0..6_000_u64 {
        let r = scrambled(i);
        let (unit, factor) = units[(r % 7) as usize];
        let whole = scrambled(r) >> (r >> 58);
        let zeros = "0".repeat((r >> 20) as usize % 12);
        let frac = scrambled(whole ^ 5) >> ((r >> 8) % 64);
        let number = match i % 5 {
            0 => format!("{whole}"),
            1 => format!("0.{zeros}{frac}"),
            2 => format!("{}.{frac}", whole % 1_000),
            3 => format!("{}.{zeros}{frac}{frac}", whole % 1_000_000_007),
            _ => format!("{whole}.{frac}"),
        };
        check_duration(&number, unit, factor);
    }
    for number in [
        "9007199254740991", "9007199254740992", "9007199254740993", "9007199254740994.5",
        "9223372036854773", "72057594037927935", "72057594037927936", "0.9999999999999999",
        "0.99999999999999999", "0.000000000931322574615478515625", "0.0000000009",
        "0.00000003170979198376458650", "0.00000003170979198376459",
    ] {
        for (unit, factor) in units {
            check_duration(number, unit, factor);
        }
    }
}

#[test]
fn durations_are_written_compactly() {
    let text = |seconds: i64| format_duration(&Duration { seconds });
    assert_eq!(text(0), "0s");
    assert_eq!(text(-5), "0s");
    assert_eq!(text(59), "59s");
    assert_eq!(text(60), "1m");
    assert_eq!(text(95_400), "1d 2h 30m");
    assert_eq!(text(86_401), "1d 1s");
    assert_eq!(text(3_661), "1h 1m 1s");
    assert_eq!(text(9_223_372_036_854_774), "106751991167d 7h 12m 54s");
}

#[test]
fn byte_counts_are_written_in_binary_units() {
    assert_eq!(format_bytes(0), "0 B");
    assert_eq!(format_bytes(1_000), "1000 B");
    assert_eq!(format_bytes(1_536), "1.50 KiB");
    assert_eq!(format_bytes(1_572_864), "1.50 MiB");
}

#[test]
fn numbers_are_taken_apart_and_scaled() {
    let number = |text: &str| parse_number(&text.chars().collect());
    assert_eq!(number(" 12.25 ").ok().and_then(|n| n.scale(4)), Some(49));
    assert_eq!(number("12.25").ok().and_then(|n| n.multiply(3)), Some(36));
    assert_eq!(number("99999999999999999999").ok().and_then(|n| n.scale(1)), None);
    assert_eq!(number("18014398509481984").ok().and_then(|n| n.multiply(1)), None);
    assert_eq!(number("x").err().as_deref(), Some("expected a leading number"));
    assert_eq!(first_alphabetic(&"1.5GiB".chars().collect()), 3);
    assert_eq!(first_alphabetic(&"15".chars().collect()), 2);
}

#[test]
fn allocated_blocks_count_where_the_platform_has_them() {
    let unix = Metadata {
        len: 10,
        blocks: Some(8),
        device: Some(3),
    };
    assert_eq!(physical_disk_size(&unix), 4_096);
    assert_eq!(device_id(&unix), Some(3));
    let sparse = Metadata {
        len: 1 << 30,
        blocks: Some(0),
        device: Some(3),
    };
    assert_eq!(physical_disk_size(&sparse), 0);
    let windows = Metadata {
        len: 10,
        blocks: None,
        device: None,
    };
    assert_eq!(physical_disk_size(&windows), 10);
    assert_eq!(device_id(&windows), None);
}

#[test]
fn instants_are_ordered_to_the_nanosecond() {
    let at = |secs: i64, nanos: u32| Timestamp { secs, nanos };
    assert!(at(5, 0).is_at_or_before(at(5, 0)));
    assert!(at(5, 0).is_at_or_before(at(5, 1)));
    assert!(!at(5, 2).is_at_or_before(at(5, 1)));
    assert!(at(-1, 999).is_at_or_before(at(0, 0)));
}

#[test]
fn format_bytes_rounds_and_picks_the_unit() {
    assert_eq!(format_bytes(1023), "1023 B");
    assert_eq!(format_bytes(1024), "1 KiB");
    assert_eq!(format_bytes(2048), "2 KiB");
    // Halves go to the even hundredth.
    assert_eq!(format_bytes(1152), "1.12 KiB");
    assert_eq!(format_bytes(1408), "1.38 KiB");
    assert_eq!(format_bytes(1025), "1.00 KiB");
    assert_eq!(format_bytes(1_048_575), "1024.00 KiB");
    assert_eq!(format_bytes(1 << 30), "1 GiB");
    assert_eq!(format_bytes((1 << 40) + (1 << 39)), "1.50 TiB");
    assert_eq!(format_bytes(3 << 50), "3 PiB");
    // One part in 2^52 beyond a whole number is not shown, two are.
    assert_eq!(format_bytes((1 << 60) + 256), "1 EiB");
    assert_eq!(format_bytes((1 << 60) + 512), "1.00 EiB");
    assert_eq!(format_bytes(u64::MAX), "16 EiB");
}
