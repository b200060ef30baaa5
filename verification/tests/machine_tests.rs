use dutopia::machine::{convert_line, csv_quote_path, find_csv_start, perm_to_mode, unix_time};

#[test]
fn test_find_csv_start_basic() {
    let line = b"prefix;122!data,here";
    assert_eq!(find_csv_start(line), Some(11));
}

#[test]
fn test_find_csv_start_negative() {
    let line = b"prefix;-101!data,here";
    assert_eq!(find_csv_start(line), Some(12));
}

#[test]
fn test_find_csv_start_with_exclamation_in_name() {
    let line = b"test!name!with!bangs:6!system;122!data";
    assert_eq!(find_csv_start(line), Some(34));
}

#[test]
fn test_perm_to_mode_directory_sr() {
    assert_eq!(perm_to_mode(b"drwxr-sr-x").unwrap(), 16877);
}

#[test]
fn test_perm_to_mode_directory_rws() {
    assert_eq!(perm_to_mode(b"drwxrwsr-x").unwrap(), 16893);
}

#[test]
fn test_perm_to_mode_sticky_t() {
    assert_eq!(perm_to_mode(b"drwxr-s--T").unwrap(), 16873);
}

#[test]
fn test_perm_to_mode_regular_file() {
    assert_eq!(perm_to_mode(b"-rw-r--r--").unwrap(), 33188);
}

#[test]
fn test_perm_to_mode_executable() {
    assert_eq!(perm_to_mode(b"-rwxr-xr-x").unwrap(), 33261);
}

#[test]
fn test_perm_to_mode_symlink() {
    assert_eq!(perm_to_mode(b"lrwxrwxrwx").unwrap(), 41471);
}

#[test]
fn test_unix_time() {
    assert_eq!(unix_time(b"2026-01-05 05:16:44.176298").unwrap(), 1767571200);
    assert_eq!(unix_time(b"2023-12-31 05:51:55.048507").unwrap(), 1703980800);
    assert_eq!(unix_time(b"2022-05-25 06:20:27.018751").unwrap(), 1653436800);
    assert_eq!(unix_time(b"2017-03-19 11:40:59.000000").unwrap(), 1489881600);
    assert_eq!(unix_time(b"2024-06-06 10:20:41.153388").unwrap(), 1717632000);
    assert_eq!(unix_time(b"2023-09-18 11:27:53.023686").unwrap(), 1694995200);
    assert_eq!(unix_time(b"2025-11-23 04:20:41.218196").unwrap(), 1763856000);
}

#[test]
fn unix_time_rejects_bad_dates() {
    assert!(unix_time(b"short").is_err());
    assert!(unix_time(b"2026-13-05 00:00:00").is_err());
    assert!(unix_time(b"2026-02-30 00:00:00").is_err());
    assert!(unix_time(b"2024-02-29 00:00:00").is_ok());
    assert!(unix_time(b"2023-02-29 00:00:00").is_err());
}

#[test]
fn test_csv_quote_path_simple() {
    let mut out = Vec::new();
    csv_quote_path(&mut out, b"\"/red/peddn10\"");
    assert_eq!(&out, b"\"/red/peddn10\"");
}

#[test]
fn test_csv_quote_path_with_inner_quote() {
    let mut out = Vec::new();
    csv_quote_path(&mut out, b"\"path/with\"\"quote\"");
    assert_eq!(&out, b"\"path/with\"\"quote\"");
}

#[test]
fn test_csv_quote_path_unquoted_input() {
    let mut out = Vec::new();
    csv_quote_path(&mut out, b"/simple/path");
    assert_eq!(&out, b"\"/simple/path\"");
}

fn convert(line: &[u8]) -> String {
    let mut out = Vec::new();
    convert_line(line, &mut out).unwrap();
    String::from_utf8_lossy(&out).trim_end().to_string()
}

#[test]
fn test_convert_line_1() {
    let line = br#"5001:000fffffffffffff:0000000000000003:1:100:c659b7:0:4000010:1!.:6!system;106!250609822-3,2026-01-05 05:16:44.176298,2025-11-23 04:20:41.218196,0,0,drwxr-sr-x,262144,512,"/red/peddn10""#;
    assert_eq!(
        convert(line),
        r#"250609822-3,1767571200,1763856000,0,0,16877,262144,262144,"/red/peddn10""#
    );
}

#[test]
fn test_convert_line_2() {
    let line = br#"5001:000fffffffffffff:00000000000036b6:10002:0:c659b7:0:4000010:12!ABHD_restart:6!system;121!250609822-14006,2026-01-05 19:00:02.603416,2023-12-31 05:51:55.048507,0,976,drwxrwsr-x,4096,0,"/red/peddn10/ABHD_restart""#;
    assert_eq!(
        convert(line),
        r#"250609822-14006,1767571200,1703980800,0,976,16893,4096,0,"/red/peddn10/ABHD_restart""#
    );
}

#[test]
fn test_convert_line_3() {
    let line = br#"5001:000fffffffffffff:00000000000036b7:10002:0:c659b7:0:4000010:12!ZMLH_simdata:6!system;126!250609822-14007,2026-01-05 19:00:02.602028,2022-05-25 06:20:27.018751,19121,2081,drwxrwsr-x,4096,0,"/red/peddn10/ZMLH_simdata""#;
    assert_eq!(
        convert(line),
        r#"250609822-14007,1767571200,1653436800,19121,2081,16893,4096,0,"/red/peddn10/ZMLH_simdata""#
    );
}

#[test]
fn test_convert_line_4() {
    let line = br#"5001:000fffffffffffff:00000000000036b8:10002:0:c659b7:0:4000010:14!ABQQKF_restart:6!system;124!250609822-14008,2026-01-05 19:00:02.619190,2023-12-31 05:52:05.123526,0,1105,drwxrwsr-x,4096,0,"/red/peddn10/ABQQKF_restart""#;
    assert_eq!(
        convert(line),
        r#"250609822-14008,1767571200,1703980800,0,1105,16893,4096,0,"/red/peddn10/ABQQKF_restart""#
    );
}

#[test]
fn test_convert_line_5() {
    let line = br#"5001:000fffffffffffff:00000000000036b9:10002:0:c659b7:0:4000010:16!BRRI_IRS_restart:6!system;126!250609822-14009,2026-01-05 03:10:03.792909,2023-12-31 05:52:35.913911,0,1102,drwxrwsr-x,4096,0,"/red/peddn10/BRRI_IRS_restart""#;
    assert_eq!(
        convert(line),
        r#"250609822-14009,1767571200,1703980800,0,1102,16893,4096,0,"/red/peddn10/BRRI_IRS_restart""#
    );
}

#[test]
fn test_convert_line_6() {
    let line = br#"5001:000fffffffffffff:00000000000036ba:10002:0:c659b7:0:4000010:15!EVENT03_restart:6!system;125!250609822-14010,2026-01-05 19:00:02.626714,2023-12-31 05:53:36.589167,0,1231,drwxrwsr-x,4096,0,"/red/peddn10/EVENT03_restart""#;
    assert_eq!(
        convert(line),
        r#"250609822-14010,1767571200,1703980800,0,1231,16893,4096,0,"/red/peddn10/EVENT03_restart""#
    );
}

#[test]
fn test_convert_line_7() {
    let line = br#"5001:000fffffffffffff:00000000000036bb:10002:0:c659b7:0:4000010:19!EVENTHRDHUN_restart:6!system;129!250609822-14011,2026-01-05 03:10:03.772983,2017-03-19 11:40:59.000000,0,1139,drwxrwsr-x,4096,0,"/red/peddn10/EVENTHRDHUN_restart""#;
    assert_eq!(
        convert(line),
        r#"250609822-14011,1767571200,1489881600,0,1139,16893,4096,0,"/red/peddn10/EVENTHRDHUN_restart""#
    );
}

#[test]
fn test_convert_line_8_sticky() {
    let line = br#"5001:000fffffffffffff:00000000000036bc:10002:0:c659b7:0:4000010:24!GEOCONSISTENTGAS_restart:6!system;134!250609822-14012,2026-01-05 19:00:02.618861,2023-09-18 11:27:53.023686,0,1302,drwxr-s--T,4096,0,"/red/peddn10/GEOCONSISTENTGAS_restart""#;
    assert_eq!(
        convert(line),
        r#"250609822-14012,1767571200,1694995200,0,1302,16873,4096,0,"/red/peddn10/GEOCONSISTENTGAS_restart""#
    );
}

#[test]
fn test_convert_line_9() {
    let line = br#"5001:000fffffffffffff:00000000000036bd:10002:0:c659b7:0:c000010:12!HRML_restart:6!system;119!250609822-14013,2026-01-05 19:00:02.604342,2024-06-06 10:20:41.153388,0,0,drwxr-sr-x,4096,0,"/red/peddn10/HRML_restart""#;
    assert_eq!(
        convert(line),
        r#"250609822-14013,1767571200,1717632000,0,0,16877,4096,0,"/red/peddn10/HRML_restart""#
    );
}

#[test]
fn test_convert_line_10() {
    let line = br#"5001:000fffffffffffff:00000000000036be:10002:0:c659b7:0:c000010:15!HSBHGAS_restart:6!system;122!250609822-14014,2026-01-05 19:00:02.603189,2024-06-06 10:20:42.979394,0,0,drwxr-sr-x,4096,0,"/red/peddn10/HSBHGAS_restart""#;
    assert_eq!(
        convert(line),
        r#"250609822-14014,1767571200,1717632000,0,0,16877,4096,0,"/red/peddn10/HSBHGAS_restart""#
    );
}

#[test]
fn test_convert_line_with_comma_in_filename() {
    let line = br#"5001:000fffffffffffff:00000000000036be:10002:0:c659b7:0:c000010:15!HSBHGAS_restart with comma, ok:6!system;122!250609822-14014,2026-01-05 19:00:02.603189,2024-06-06 10:20:42.979394,0,0,drwxr-sr-x,4096,0,"/red/peddn10/HSBHGAS_restart with comma, ok""#;
    assert_eq!(
        convert(line),
        r#"250609822-14014,1767571200,1717632000,0,0,16877,4096,0,"/red/peddn10/HSBHGAS_restart with comma, ok""#
    );
}

#[test]
fn test_convert_line_with_exclamation_in_filename() {
    let line = br#"5001:000fffffffffffff:00000000000036be:10002:0:c659b7:0:c000010:15!HSBHGAS_restart with ! ok!!:6!system;122!250609822-14014,2026-01-05 19:00:02.603189,2024-06-06 10:20:42.979394,0,0,drwxr-sr-x,4096,0,"/red/peddn10/HSBHGAS_restart with ! ok!!""#;
    assert_eq!(
        convert(line),
        r#"250609822-14014,1767571200,1717632000,0,0,16877,4096,0,"/red/peddn10/HSBHGAS_restart with ! ok!!""#
    );
}

#[test]
fn test_convert_line_with_negative_number_pattern() {
    let line = br#"5001:000fffffffffffff:00000000000036be:10002:0:c659b7:0:c000010:15!test:6!system;-101!250609822-14014,2026-01-05 19:00:02.603189,2024-06-06 10:20:42.979394,0,0,drwxr-sr-x,4096,0,"/red/peddn10/test""#;
    assert_eq!(
        convert(line),
        r#"250609822-14014,1767571200,1717632000,0,0,16877,4096,0,"/red/peddn10/test""#
    );
}

#[test]
fn test_convert_line_disk_multiply() {
    let line = br#";1!inode,2026-01-05 00:00:00,2026-01-05 00:00:00,0,0,drwxr-xr-x,4096,8,"/test""#;
    let result = convert(line);
    assert!(result.ends_with(",4096,\"/test\""));
}

#[test]
fn test_invalid_utf8_in_path() {
    // invalid UTF-8 bytes in a path survive the conversion untouched
    let mut line =
        br#";1!inode,2026-01-05 00:00:00,2026-01-05 00:00:00,0,0,drwxr-xr-x,4096,0,"/test"#
        .to_vec();
    line.extend_from_slice(&[0xFF, 0xFE]);
    line.push(b'"');

    let mut out = Vec::new();
    convert_line(&line, &mut out).unwrap();

    assert!(out.windows(2).any(|w| w == [0xFF, 0xFE]));
}

#[test]
fn convert_line_without_marker_fails() {
    let mut out = Vec::new();
    let r = convert_line(b"no marker here at all", &mut out);
    assert!(r.is_err());
    assert!(r.unwrap_err().message().contains("no CSV data"));
    assert!(out.is_empty());
}
