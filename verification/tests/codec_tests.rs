use mouse_odometer::codec::format_meters;
use mouse_odometer::codec::load_total;
use mouse_odometer::codec::parse_meters;

#[test]
fn format_zero() {
    assert_eq!(format_meters(0), "0");
}

#[test]
fn format_whole_meters() {
    assert_eq!(format_meters(1_000_000_000_000), "1000");
    assert_eq!(format_meters(1_000_000_000), "1");
}

#[test]
fn format_with_fraction() {
    assert_eq!(format_meters(42_500_000_000), "42.5");
    assert_eq!(format_meters(1_000_026_458_300), "1000.0264583");
    assert_eq!(format_meters(26_458_300), "0.0264583");
    assert_eq!(format_meters(1), "0.000000001");
}

#[test]
fn format_largest_total() {
    assert_eq!(format_meters(u64::MAX), "18446744073.709551615");
}

#[test]
fn parse_whole_meters() {
    assert_eq!(parse_meters("1000"), Some(1_000_000_000_000));
    assert_eq!(parse_meters("0"), Some(0));
}

#[test]
fn parse_with_fraction() {
    assert_eq!(parse_meters("42.5"), Some(42_500_000_000));
    assert_eq!(parse_meters("12.25"), Some(12_250_000_000));
    assert_eq!(parse_meters("0.000000001"), Some(1));
}

#[test]
fn parse_rejects_malformed() {
    assert_eq!(parse_meters(""), None);
    assert_eq!(parse_meters("abc"), None);
    assert_eq!(parse_meters("1.2.3"), None);
    assert_eq!(parse_meters(".5"), None);
    assert_eq!(parse_meters("5."), None);
    assert_eq!(parse_meters("-1"), None);
    assert_eq!(parse_meters("1.0000000001"), None);
    assert_eq!(parse_meters("1000\n"), None);
}

#[test]
fn parse_rejects_unrepresentable() {
    assert_eq!(parse_meters("99999999999999999999999"), None);
    assert_eq!(parse_meters("18446744073.709551616"), None);
}

#[test]
fn round_trip_exact() {
    for nm in [
        0u64,
        1,
        9,
        1_000_000_000,
        42_500_000_000,
        1_000_026_458_300,
        987_654_321_123_456_789,
        u64::MAX,
    ] {
        let text = format_meters(nm);
        assert_eq!(parse_meters(&text), Some(nm), "round trip of {} via {:?}", nm, text);
    }
}

#[test]
fn load_missing_file_is_zero() {
    assert_eq!(load_total(None), 0);
}

#[test]
fn load_malformed_is_zero() {
    assert_eq!(load_total(Some("garbage")), 0);
    assert_eq!(load_total(Some("")), 0);
    assert_eq!(load_total(Some("12,5")), 0);
}

#[test]
fn load_valid_content() {
    assert_eq!(load_total(Some("1000")), 1_000_000_000_000);
    assert_eq!(load_total(Some("123.456")), 123_456_000_000);
}
