use dutopia::binary::{bin_decode_stream, bin_encode_stream, csv_bytes_to_bin, csv_to_zst_bytes,
    read_binary_record, read_line_bytes, render_csv_stream, write_binary_record, zst_to_csv_bytes,
    BinError, ConvError};
use dutopia::record::BinaryRecord;

fn sample_record() -> BinaryRecord {
    BinaryRecord {
        path: b"/home/user/test.txt".to_vec(),
        dev: 2049,
        ino: 12345,
        atime: 1672531200,
        mtime: 1672617600,
        uid: 1000,
        gid: 1000,
        mode: 33188,
        size: 1024,
        disk: 42,
    }
}

fn sample_record_with_quotes() -> BinaryRecord {
    BinaryRecord {
        path: b"path with \"quotes\".txt".to_vec(),
        dev: 2050,
        ino: 67890,
        atime: -1,
        mtime: 0,
        uid: 0,
        gid: 0,
        mode: 16877,
        size: 4096,
        disk: 1,
    }
}

fn sample_record_with_newline() -> BinaryRecord {
    BinaryRecord {
        path: b"path\nwith\nnewlines.txt".to_vec(),
        dev: 2051,
        ino: 11111,
        atime: 1000000000,
        mtime: 2000000000,
        uid: 500,
        gid: 500,
        mode: 33188,
        size: 2048,
        disk: 3,
    }
}

fn sample_record_non_utf8() -> BinaryRecord {
    BinaryRecord {
        path: vec![0xFF, 0xFE, b'/', b'p', b'a', b't', b'h'],
        dev: 2052,
        ino: 22222,
        atime: 1500000000,
        mtime: 1600000000,
        uid: 750,
        gid: 750,
        mode: 16877,
        size: 4096,
        disk: 4,
    }
}

#[test]
fn test_write_and_read_binary_record() {
    let record = sample_record();
    let mut buffer = Vec::new();
    write_binary_record(&mut buffer, &record);
    let mut pos = 0usize;
    let read_record = read_binary_record(&buffer, &mut pos).unwrap().unwrap();
    assert_eq!(record, read_record);
}

#[test]
fn test_write_and_read_binary_record_with_quotes() {
    let record = sample_record_with_quotes();
    let mut buffer = Vec::new();
    write_binary_record(&mut buffer, &record);
    let mut pos = 0usize;
    let read_record = read_binary_record(&buffer, &mut pos).unwrap().unwrap();
    assert_eq!(record, read_record);
}

#[test]
fn test_write_and_read_binary_record_with_newline() {
    let record = sample_record_with_newline();
    let mut buffer = Vec::new();
    write_binary_record(&mut buffer, &record);
    let mut pos = 0usize;
    let read_record = read_binary_record(&buffer, &mut pos).unwrap().unwrap();
    assert_eq!(record, read_record);
}

#[test]
fn test_write_and_read_binary_record_non_utf8() {
    let record = sample_record_non_utf8();
    let mut buffer = Vec::new();
    write_binary_record(&mut buffer, &record);
    let mut pos = 0usize;
    let read_record = read_binary_record(&buffer, &mut pos).unwrap().unwrap();
    assert_eq!(record, read_record);
}

#[test]
fn test_read_line_bytes() {
    let data = b"line1\nline2\r\nline3\n";
    let mut pos = 0usize;
    let mut buf = Vec::new();

    let bytes_read = read_line_bytes(data, &mut pos, &mut buf);
    assert_eq!(bytes_read, 6);
    assert_eq!(buf, b"line1\n");

    buf.clear();
    let bytes_read = read_line_bytes(data, &mut pos, &mut buf);
    assert_eq!(bytes_read, 7);
    assert_eq!(buf, b"line2\r\n");

    buf.clear();
    let bytes_read = read_line_bytes(data, &mut pos, &mut buf);
    assert_eq!(bytes_read, 6);
    assert_eq!(buf, b"line3\n");

    buf.clear();
    let bytes_read = read_line_bytes(data, &mut pos, &mut buf);
    assert_eq!(bytes_read, 0);
    assert!(buf.is_empty());
}

#[test]
fn test_read_binary_record_empty() {
    let buffer: Vec<u8> = Vec::new();
    let mut pos = 0usize;
    let result = read_binary_record(&buffer, &mut pos).unwrap();
    assert!(result.is_none());
}

#[test]
fn test_read_binary_record_truncated_path_len() {
    let buffer = vec![0x05, 0x00];
    let mut pos = 0usize;
    let err = read_binary_record(&buffer, &mut pos).unwrap_err();
    assert_eq!(err, BinError::Truncated);
}

#[test]
fn bin_stream_round_trips_in_order() {
    let records = vec![
        sample_record(),
        sample_record_with_quotes(),
        sample_record_with_newline(),
        sample_record_non_utf8(),
    ];
    let stream = bin_encode_stream(&records);
    let back = bin_decode_stream(&stream).unwrap();
    assert_eq!(back, records);
}

#[test]
fn bin_stream_empty_round_trips() {
    let records: Vec<BinaryRecord> = Vec::new();
    let stream = bin_encode_stream(&records);
    assert!(stream.is_empty());
    let back = bin_decode_stream(&stream).unwrap();
    assert!(back.is_empty());
}

#[test]
fn bin_stream_truncated_tail_fails() {
    let records = vec![sample_record()];
    let mut stream = bin_encode_stream(&records);
    stream.pop();
    assert_eq!(bin_decode_stream(&stream).unwrap_err(), BinError::Truncated);
}

#[test]
fn csv_file_to_bin_needs_exact_header() {
    let bad = b"WRONG,HEADER\n2049-1,0,0,0,0,0,0,0,/p\n";
    assert_eq!(csv_bytes_to_bin(bad).unwrap_err(), ConvError::BadHeader);
}

#[test]
fn csv_file_to_bin_rejects_broken_line() {
    let bad = b"INODE,ATIME,MTIME,UID,GID,MODE,SIZE,DISK,PATH\nonly,three,fields\n";
    assert_eq!(csv_bytes_to_bin(bad).unwrap_err(), ConvError::BadLine);
}

#[test]
fn zst_round_trip_preserves_the_file() {
    let csv = b"INODE,ATIME,MTIME,UID,GID,MODE,SIZE,DISK,PATH\n\
        2049-12345,1672531200,1672617600,1000,1000,33188,1024,42,/home/user/test.txt\n\
        2050-67890,-1,0,0,0,16877,4096,1,\"path with \"\"quotes\"\".txt\"\n";
    let zst = csv_to_zst_bytes(csv).unwrap();
    assert_eq!(u32::from_le_bytes([zst[0], zst[1], zst[2], zst[3]]), 0xFD2FB528);
    let back = zst_to_csv_bytes(&zst).unwrap();
    assert_eq!(back, csv.to_vec());
}

#[test]
fn zst_to_csv_rejects_wrong_magic() {
    let junk = b"not a zstd file at all";
    assert_eq!(zst_to_csv_bytes(junk).unwrap_err(), ConvError::BadMagic);
    assert_eq!(zst_to_csv_bytes(b"ab").unwrap_err(), ConvError::BadMagic);
}

#[test]
fn render_csv_stream_emits_header_and_lines() {
    let records = vec![sample_record()];
    let text = render_csv_stream(&records);
    let shown = String::from_utf8(text).unwrap();
    let mut lines = shown.lines();
    assert_eq!(lines.next().unwrap(), "INODE,ATIME,MTIME,UID,GID,MODE,SIZE,DISK,PATH");
    assert_eq!(
        lines.next().unwrap(),
        "2049-12345,1672531200,1672617600,1000,1000,33188,1024,42,/home/user/test.txt"
    );
    assert!(lines.next().is_none());
}
