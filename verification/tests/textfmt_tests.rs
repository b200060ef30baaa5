use dutopia::textfmt::{format_duration, human_bytes, human_count, parse_file_hint, spinner};

#[test]
fn test_spinner() {
    assert_eq!(spinner(0), "/");
    assert_eq!(spinner(1), "-");
    assert_eq!(spinner(2), "\\");
    assert_eq!(spinner(3), "|");
    assert_eq!(spinner(4), "/");
}

#[test]
fn test_format_duration_seconds() {
    assert_eq!(format_duration(0), b"0.0s");
    assert_eq!(format_duration(1_000), b"1.0s");
    assert_eq!(format_duration(30_000), b"30.0s");
    assert_eq!(format_duration(59_000), b"59.0s");
}

#[test]
fn test_format_duration_minutes() {
    assert_eq!(format_duration(60_000), b"1m 00s");
    assert_eq!(format_duration(90_000), b"1m 30s");
    assert_eq!(format_duration(3_599_000), b"59m 59s");
}

#[test]
fn test_format_duration_hours() {
    assert_eq!(format_duration(3_600_000), b"1h 00m 00s");
    assert_eq!(format_duration(3_661_000), b"1h 01m 01s");
    assert_eq!(format_duration(7_200_000), b"2h 00m 00s");
}

#[test]
fn test_format_duration_fractional() {
    assert_eq!(format_duration(1_500), b"1.5s");
    assert_eq!(format_duration(500), b"0.5s");
    assert_eq!(format_duration(100), b"0.1s");
}

#[test]
fn test_human_count_basic() {
    assert_eq!(human_count(0), b"0");
    assert_eq!(human_count(1), b"1");
    assert_eq!(human_count(999), b"999");
}

#[test]
fn test_human_count_thousands() {
    assert_eq!(human_count(1_000), b"1.0K");
    assert_eq!(human_count(1_500), b"1.5K");
    assert_eq!(human_count(999_999), b"1000.0K");
}

#[test]
fn test_human_count_millions() {
    assert_eq!(human_count(1_000_000), b"1.0M");
    assert_eq!(human_count(1_500_000), b"1.5M");
    assert_eq!(human_count(999_999_999), b"1000.0M");
}

#[test]
fn test_human_count_billions() {
    assert_eq!(human_count(1_000_000_000), b"1.0B");
    assert_eq!(human_count(1_500_000_000), b"1.5B");
}

#[test]
fn test_human_count_trillions() {
    assert_eq!(human_count(1_000_000_000_000), b"1.0T");
    let expected = format!("{:.1}T", u64::MAX as f64 / 1e12);
    assert_eq!(human_count(u64::MAX), expected.as_bytes());
}

#[test]
fn test_human_bytes_basic() {
    assert_eq!(human_bytes(0), b"0B");
    assert_eq!(human_bytes(1), b"1B");
    assert_eq!(human_bytes(1023), b"1023B");
}

#[test]
fn test_human_bytes_kilobytes() {
    assert_eq!(human_bytes(1024), b"1.0KB");
    assert_eq!(human_bytes(1536), b"1.5KB");
    assert_eq!(human_bytes(1048575), b"1024.0KB");
}

#[test]
fn test_human_bytes_megabytes() {
    assert_eq!(human_bytes(1048576), b"1.0MB");
    assert_eq!(human_bytes(1572864), b"1.5MB");
}

#[test]
fn test_human_bytes_gigabytes() {
    assert_eq!(human_bytes(1073741824), b"1.0GB");
    assert_eq!(human_bytes(1610612736), b"1.5GB");
}

#[test]
fn test_human_bytes_terabytes() {
    assert_eq!(human_bytes(1099511627776), b"1.0TB");
    let expected = format!("{:.1}TB", u64::MAX as f64 / (1024.0_f64.powi(4)));
    assert_eq!(human_bytes(u64::MAX), expected.as_bytes());
}

#[test]
fn test_parse_file_hint_basic() {
    assert_eq!(parse_file_hint(b"100"), Some(100));
    assert_eq!(parse_file_hint(b"0"), Some(0));
    assert_eq!(parse_file_hint(b"1234567"), Some(1234567));
}

#[test]
fn test_parse_file_hint_units() {
    assert_eq!(parse_file_hint(b"10k"), Some(10_000));
    assert_eq!(parse_file_hint(b"10K"), Some(10_000));
    assert_eq!(parse_file_hint(b"2m"), Some(2_000_000));
    assert_eq!(parse_file_hint(b"2M"), Some(2_000_000));
    assert_eq!(parse_file_hint(b"1g"), Some(1_000_000_000));
    assert_eq!(parse_file_hint(b"1G"), Some(1_000_000_000));
}

#[test]
fn test_parse_file_hint_decimals() {
    assert_eq!(parse_file_hint(b"1.5k"), Some(1_500));
    assert_eq!(parse_file_hint(b"2.5m"), Some(2_500_000));
    assert_eq!(parse_file_hint(b"0.5g"), Some(500_000_000));
}

#[test]
fn test_parse_file_hint_whitespace() {
    assert_eq!(parse_file_hint(b"  10k  "), Some(10_000));
    assert_eq!(parse_file_hint(b"10 k"), Some(10_000));
    assert_eq!(parse_file_hint(b"\t2m\n"), Some(2_000_000));
}

#[test]
fn test_parse_file_hint_invalid() {
    assert_eq!(parse_file_hint(b"invalid"), None);
    assert_eq!(parse_file_hint(b"10x"), None);
    assert_eq!(parse_file_hint(b""), None);
    assert_eq!(parse_file_hint(b"k"), None);
    assert_eq!(parse_file_hint(b"10t"), None);
}

#[test]
fn test_formatting_consistency() {
    let test_values = [0u64, 1, 1000, 1024, 1000000, 1048576];

    for &val in &test_values {
        let count_str = human_count(val);
        let bytes_str = human_bytes(val);

        assert!(!count_str.is_empty());
        assert!(!bytes_str.is_empty());

        if val > 0 {
            let last = *bytes_str.last().unwrap();
            assert!(last == b'B' || last.is_ascii_alphabetic());
        }
    }
}
