use zaohelper::time::{format_timestamp, parse_time, Duration};

#[test]
fn parses_plain_timestamp() {
    let d = parse_time("0:02:00.000000000").unwrap();
    assert_eq!(d.secs, 120);
    assert_eq!(d.nanos, 0);
}

#[test]
fn parses_full_timestamp() {
    let d = parse_time("1:02:03.000000005").unwrap();
    assert_eq!(d.secs, 3723);
    assert_eq!(d.nanos, 5);
}

#[test]
fn parses_with_dot_separators_only() {
    let d = parse_time("0.1.2.3").unwrap();
    assert_eq!(d.secs, 62);
    assert_eq!(d.nanos, 3);
}

#[test]
fn normalizes_overflowing_minutes_and_nanos() {
    let d = parse_time("1:90:05.123456789").unwrap();
    assert_eq!(d.secs, 9005);
    assert_eq!(d.nanos, 123456789);
    let e = parse_time("0:0:0.2000000001").unwrap();
    assert_eq!(e.secs, 2);
    assert_eq!(e.nanos, 1);
}

#[test]
fn rejects_wrong_component_counts() {
    assert!(parse_time("00:00:00").is_none());
    assert!(parse_time("0:0:0.0.0").is_none());
    assert!(parse_time("").is_none());
    assert!(parse_time("123").is_none());
}

#[test]
fn rejects_non_digit_components() {
    assert!(parse_time("0:xx:00.000000000").is_none());
    assert!(parse_time("0:00:00.00000000a").is_none());
    assert!(parse_time("-1:00:00.000000000").is_none());
    assert!(parse_time("0::00.000000000").is_none());
}

#[test]
fn rejects_nanoseconds_beyond_u32() {
    assert!(parse_time("0:0:0.4294967295").is_some());
    assert!(parse_time("0:0:0.4294967296").is_none());
}

#[test]
fn formats_canonically() {
    let d = Duration { secs: 7322, nanos: 5 };
    assert_eq!(format_timestamp(&d), "2:02:02.000000005");
    let z = Duration { secs: 0, nanos: 0 };
    assert_eq!(format_timestamp(&z), "0:00:00.000000000");
}

#[test]
fn format_of_parse_preserves_elapsed_time() {
    for s in [
        "0:02:00.000000000",
        "1:90:05.123456789",
        "0.1.2.3",
        "99:59:59.999999999",
        "0:0:0.2000000001",
    ] {
        let d = parse_time(s).unwrap();
        let formatted = format_timestamp(&d);
        let d2 = parse_time(&formatted).unwrap();
        let total = |x: &Duration| x.secs as u128 * 1_000_000_000 + x.nanos as u128;
        assert_eq!(total(&d), total(&d2));
        assert_eq!(d, d2);
    }
}

#[test]
fn duration_constructor_normalizes() {
    let d = Duration::new(1, 2_500_000_000);
    assert_eq!(d.secs, 3);
    assert_eq!(d.nanos, 500_000_000);
    assert!(!d.is_zero());
    assert_eq!(d.as_secs(), 3);
    assert!(Duration::new(0, 0).is_zero());
}
