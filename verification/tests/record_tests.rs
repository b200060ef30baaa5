use dutopia::record::{format_csv_record, parse_csv_line, parse_csv_line_bytes, parse_csv_record,
    parse_csv_record_bytes, BinaryRecord, RecordError};

fn sample_record() -> BinaryRecord {
    BinaryRecord {
        path: b"/home/user/test.txt".to_vec(),
        dev: 2049,
        ino: 12345,
        atime: 1672531200,
        mtime: 1672617600,
        uid: 1000,
        gid: 1000,
        mode: 33188,
        size: 1024,
        disk: 42,
    }
}

fn sample_record_with_quotes() -> BinaryRecord {
    BinaryRecord {
        path: b"path with \"quotes\".txt".to_vec(),
        dev: 2050,
        ino: 67890,
        atime: -1,
        mtime: 0,
        uid: 0,
        gid: 0,
        mode: 16877,
        size: 4096,
        disk: 1,
    }
}

fn sample_record_with_newline() -> BinaryRecord {
    BinaryRecord {
        path: b"path\nwith\nnewlines.txt".to_vec(),
        dev: 2051,
        ino: 11111,
        atime: 1000000000,
        mtime: 2000000000,
        uid: 500,
        gid: 500,
        mode: 33188,
        size: 2048,
        disk: 3,
    }
}

fn sample_record_non_utf8() -> BinaryRecord {
    BinaryRecord {
        path: vec![0xFF, 0xFE, b'/', b'p', b'a', b't', b'h'],
        dev: 2052,
        ino: 22222,
        atime: 1500000000,
        mtime: 1600000000,
        uid: 750,
        gid: 750,
        mode: 16877,
        size: 4096,
        disk: 4,
    }
}

#[test]
fn test_parse_csv_line_bytes_simple() {
    let line = b"a,b,c,d";
    let fields = parse_csv_line_bytes(line);
    assert_eq!(fields, vec![b"a".to_vec(), b"b".to_vec(), b"c".to_vec(), b"d".to_vec()]);
}

#[test]
fn test_parse_csv_line_bytes_quoted() {
    let line = br#"a,"b,c",d"#;
    let fields = parse_csv_line_bytes(line);
    assert_eq!(fields, vec![b"a".to_vec(), b"b,c".to_vec(), b"d".to_vec()]);
}

#[test]
fn test_parse_csv_line_bytes_with_newline() {
    let line = b"a,\"b\nc\",d";
    let fields = parse_csv_line_bytes(line);
    assert_eq!(fields, vec![b"a".to_vec(), b"b\nc".to_vec(), b"d".to_vec()]);
}

#[test]
fn test_parse_csv_line_bytes_non_utf8() {
    let line = vec![b'a', b',', b'"', 0xFF, 0xFE, b'"', b',', b'd'];
    let fields = parse_csv_line_bytes(&line);
    assert_eq!(fields, vec![b"a".to_vec(), vec![0xFF, 0xFE], b"d".to_vec()]);
}

#[test]
fn test_parse_csv_line_simple() {
    let line = "a,b,c,d";
    let fields = parse_csv_line(line);
    assert_eq!(fields, vec!["a", "b", "c", "d"]);
}

#[test]
fn test_parse_csv_line_quoted() {
    let line = r#"a,"b,c",d"#;
    let fields = parse_csv_line(line);
    assert_eq!(fields, vec!["a", "b,c", "d"]);
}

#[test]
fn test_parse_csv_line_escaped_quotes() {
    let line = r#"a,"b""c",d"#;
    let fields = parse_csv_line(line);
    assert_eq!(fields, vec!["a", r#"b"c"#, "d"]);
}

#[test]
fn test_parse_csv_line_empty_fields() {
    let line = "a,,c";
    let fields = parse_csv_line(line);
    assert_eq!(fields, vec!["a", "", "c"]);
}

#[test]
fn test_parse_csv_line_trailing_comma() {
    let line = "a,b,c,";
    let fields = parse_csv_line(line);
    assert_eq!(fields, vec!["a", "b", "c", ""]);
}

#[test]
fn test_parse_csv_record_valid() {
    let csv_line = "2049-12345,1672531200,1672617600,1000,1000,33188,1024,42,/home/user/test.txt";
    let record = parse_csv_record(csv_line).unwrap();
    let expected = sample_record();
    assert_eq!(record, expected);
}

#[test]
fn test_parse_csv_record_with_quoted_path() {
    let csv_line = r#"2050-67890,-1,0,0,0,16877,4096,1,"path with ""quotes"".txt""#;
    let record = parse_csv_record(csv_line).unwrap();
    let expected = sample_record_with_quotes();
    assert_eq!(record, expected);
}

#[test]
fn test_parse_csv_record_with_newline_in_path() {
    let csv_line =
        "2051-11111,1000000000,2000000000,500,500,33188,2048,3,\"path\nwith\nnewlines.txt\"";
    let record = parse_csv_record(csv_line).unwrap();
    let expected = sample_record_with_newline();
    assert_eq!(record, expected);
}

#[test]
fn test_parse_csv_record_invalid_fields_count() {
    let csv_line = "2049-12345,1672531200,1672617600";
    let result = parse_csv_record(csv_line);
    assert!(result.is_err());
    assert!(result.unwrap_err().message().contains("must have 9 fields"));
}

#[test]
fn test_parse_csv_record_missing_dev_ino_separator() {
    let csv_line = "204912345,1672531200,1672617600,1000,1000,33188,1024,42,/path";
    let result = parse_csv_record(csv_line);
    assert!(result.is_err());
    assert!(result.unwrap_err().message().contains("Invalid INODE format"));
}

#[test]
fn test_format_csv_record() {
    let record = sample_record();
    let csv_line = format_csv_record(&record);
    assert_eq!(
        csv_line,
        b"2049-12345,1672531200,1672617600,1000,1000,33188,1024,42,/home/user/test.txt"
    );
}

#[test]
fn test_format_csv_record_with_quotes() {
    let record = sample_record_with_quotes();
    let csv_line = format_csv_record(&record);
    assert_eq!(csv_line, br#"2050-67890,-1,0,0,0,16877,4096,1,"path with ""quotes"".txt""#);
}

#[test]
fn test_format_csv_record_with_newline() {
    let record = sample_record_with_newline();
    let csv_line = format_csv_record(&record);
    assert_eq!(
        csv_line,
        b"2051-11111,1000000000,2000000000,500,500,33188,2048,3,\"path\nwith\nnewlines.txt\""
    );
}

#[test]
fn test_format_csv_record_non_utf8() {
    let record = sample_record_non_utf8();
    let csv_line = format_csv_record(&record);
    let shown = String::from_utf8_lossy(&csv_line);
    assert!(shown.contains("2052-22222"));
    assert!(shown.contains("/path"));
}

#[test]
fn test_csv_roundtrip_format_then_parse() {
    let rec = sample_record_with_quotes();
    let csv = format_csv_record(&rec);
    let parsed = parse_csv_record_bytes(&csv).unwrap();
    assert_eq!(rec, parsed);
}

#[test]
fn test_csv_roundtrip_with_newline() {
    let rec = sample_record_with_newline();
    let csv = format_csv_record(&rec);
    let parsed = parse_csv_record_bytes(&csv).unwrap();
    assert_eq!(rec, parsed);
}

#[test]
fn test_csv_roundtrip_non_utf8() {
    let rec = sample_record_non_utf8();
    let csv = format_csv_record(&rec);
    let parsed = parse_csv_record_bytes(&csv).unwrap();
    assert_eq!(rec.dev, parsed.dev);
    assert_eq!(rec.ino, parsed.ino);
    assert_eq!(rec.atime, parsed.atime);
    assert_eq!(rec.mtime, parsed.mtime);
    assert_eq!(rec.uid, parsed.uid);
    assert_eq!(rec.gid, parsed.gid);
    assert_eq!(rec.mode, parsed.mode);
    assert_eq!(rec.size, parsed.size);
    assert_eq!(rec.disk, parsed.disk);
    // the byte-level codec keeps even a non-UTF-8 path exactly
    assert_eq!(rec.path, parsed.path);
}

#[test]
fn csv_roundtrip_of_row_with_plain_path() {
    // one full row: encode then decode gives back every field
    let rec = sample_record();
    let line = format_csv_record(&rec);
    assert_eq!(
        line,
        b"2049-12345,1672531200,1672617600,1000,1000,33188,1024,42,/home/user/test.txt"
    );
    let parsed = parse_csv_record_bytes(&line).unwrap();
    assert_eq!(parsed, rec);
}

#[test]
fn csv_quoting_of_exotic_paths_round_trips() {
    let paths: Vec<Vec<u8>> = vec![
        b"with\"quote".to_vec(),
        b"with,comma".to_vec(),
        b"with\nnewline".to_vec(),
        b"with\rreturn".to_vec(),
        vec![0xFF, 0xFE, b'x'],
        "多字节/路径".as_bytes().to_vec(),
        b"".to_vec(),
    ];
    for p in paths {
        let mut rec = sample_record();
        rec.path = p.clone();
        let line = format_csv_record(&rec);
        let parsed = parse_csv_record_bytes(&line).unwrap();
        assert_eq!(parsed.path, p);
    }
}

#[test]
fn tolerant_numeric_fields_read_as_zero() {
    // a corrupt numeric field does not fail the row, it reads as zero
    let rec = parse_csv_record("bad-9,x,y,z,w,v,u,t,/p").unwrap();
    assert_eq!(rec.dev, 0);
    assert_eq!(rec.ino, 9);
    assert_eq!(rec.atime, 0);
    assert_eq!(rec.uid, 0);
    assert_eq!(rec.path, b"/p".to_vec());
}
