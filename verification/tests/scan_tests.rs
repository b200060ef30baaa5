use dutopia::quoting::{csv_push_bytes_smart_quoted, should_skip, strip_verbatim_prefix};
use dutopia::row::{csv_push_path_smart_quoted, csv_push_str_smart_quoted, write_row_bin,
    write_row_csv, Row};
use dutopia::scan::{chunk_files, merge_bin_contents, merge_csv_contents,
    merge_csv_contents_sorted, Config, OutputFormat, ShutdownWatch, Stats, FILE_CHUNK,
    FLUSH_BYTES};

fn demo_row() -> Row {
    Row {
        dev: 1,
        ino: 2,
        mode: 755,
        uid: 1000,
        gid: 1000,
        size: 1024,
        blocks: 2,
        atime: 1234567890,
        mtime: 1234567891,
    }
}

#[test]
fn test_should_skip() {
    assert!(should_skip(b"/a/b/c/d", Some(b"b/c")));
    assert!(!should_skip(b"/a/b/c/d", Some(b"x")));
    assert!(!should_skip(b"/a/b/c/d", None));

    assert!(should_skip(b"C:\\Users\\test", Some(b"Users")));
    assert!(!should_skip(b"C:\\Users\\test", Some(b"Documents")));
}

#[test]
fn test_should_skip_edge_cases() {
    assert!(!should_skip(b"", Some(b"test")));
    assert!(!should_skip(b"", None));

    assert!(should_skip(b"test", Some(b"")));
    assert!(should_skip(b"test", Some(b"test")));
    assert!(should_skip(b"test", Some(b"te")));
}

#[test]
fn test_strip_verbatim_prefix_unix() {
    assert_eq!(strip_verbatim_prefix(b"/some/path"), b"/some/path".to_vec());
    assert_eq!(strip_verbatim_prefix(b"relative/path"), b"relative/path".to_vec());
}

#[test]
fn test_strip_verbatim_prefix_windows() {
    assert_eq!(strip_verbatim_prefix(br"\\?\C:\test"), br"C:\test".to_vec());
    assert_eq!(strip_verbatim_prefix(br"\\?\UNC\server\share"), br"\\server\share".to_vec());
    assert_eq!(strip_verbatim_prefix(br"C:\normal\path"), br"C:\normal\path".to_vec());
}

#[test]
fn test_path_processing_integration() {
    let test_paths: [&[u8]; 3] =
        [b"/usr/local/bin", b"/home/user/documents", b"/var/log/system.log"];

    for path in &test_paths {
        let stripped = strip_verbatim_prefix(path);

        assert!(!should_skip(&stripped, Some(b"nonexistent")));

        if should_skip(path, Some(b"user")) {
            assert!(should_skip(&stripped, Some(b"user")));
        }
    }
}

#[test]
fn test_csv_push_bytes_smart_quoted_fast_path() {
    let mut buf = Vec::new();
    csv_push_bytes_smart_quoted(&mut buf, b"abc_def");
    assert_eq!(&buf, b"abc_def");
}

#[test]
fn test_csv_push_bytes_smart_quoted_with_comma() {
    let mut buf = Vec::new();
    csv_push_bytes_smart_quoted(&mut buf, b"a,b");
    assert_eq!(&buf, b"\"a,b\"");
}

#[test]
fn test_csv_push_bytes_smart_quoted_with_quote() {
    let mut buf = Vec::new();
    csv_push_bytes_smart_quoted(&mut buf, b"a\"b");
    assert_eq!(&buf, b"\"a\"\"b\"");
}

#[test]
fn test_csv_push_bytes_smart_quoted_with_newline() {
    let mut buf = Vec::new();
    csv_push_bytes_smart_quoted(&mut buf, b"a\nb");
    assert_eq!(&buf, b"\"a\nb\"");
}

#[test]
fn test_csv_push_bytes_smart_quoted_with_carriage_return() {
    let mut buf = Vec::new();
    csv_push_bytes_smart_quoted(&mut buf, b"a\rb");
    assert_eq!(&buf, b"\"a\rb\"");
}

#[test]
fn test_csv_push_bytes_smart_quoted_multiple_quotes() {
    let mut buf = Vec::new();
    csv_push_bytes_smart_quoted(&mut buf, b"a\"b\"c");
    assert_eq!(&buf, b"\"a\"\"b\"\"c\"");
}

#[test]
fn test_csv_push_bytes_edge_cases() {
    let mut buf = Vec::new();
    csv_push_bytes_smart_quoted(&mut buf, b"\"");
    assert_eq!(&buf, b"\"\"\"\"");

    let mut buf = Vec::new();
    csv_push_bytes_smart_quoted(&mut buf, b"");
    assert_eq!(&buf, b"");

    let mut buf = Vec::new();
    csv_push_bytes_smart_quoted(&mut buf, b"\",\n\r");
    assert_eq!(&buf, b"\"\"\",\n\r\"");
}

#[test]
fn test_csv_push_bytes_high_bytes_unquoted() {
    // bytes like 0xFF and 0xFE are not special: they pass through verbatim
    let mut buf = Vec::new();
    csv_push_bytes_smart_quoted(&mut buf, &[0xFF, 0xFE, b'x']);
    assert_eq!(buf, vec![0xFF, 0xFE, b'x']);
}

#[test]
fn test_csv_push_str_smart_quoted_normalize_verbatim() {
    let mut buf = Vec::new();
    csv_push_str_smart_quoted(&mut buf, br"\\?\C:\foo\bar");
    assert_eq!(std::str::from_utf8(&buf).unwrap(), r"C:\foo\bar");

    let mut buf2 = Vec::new();
    csv_push_str_smart_quoted(&mut buf2, br"\\?\UNC\server\share\foo");
    assert_eq!(std::str::from_utf8(&buf2).unwrap(), r"\\server\share\foo");
}

#[test]
fn test_csv_push_path_smart_quoted() {
    let mut buf = Vec::new();
    csv_push_path_smart_quoted(&mut buf, b"simple/path");
    assert_eq!(&buf, b"simple/path");
}

#[test]
fn test_csv_push_path_with_special_chars() {
    let mut buf = Vec::new();
    csv_push_path_smart_quoted(&mut buf, b"path with spaces,commas\"quotes\nand\rnewlines");
    let result = String::from_utf8(buf).unwrap();
    assert!(result.starts_with('"'));
    assert!(result.ends_with('"'));
    assert!(result.contains(r#""""#));
}

#[test]
fn test_write_row_csv_with_atime() {
    let mut buf = Vec::new();
    write_row_csv(&mut buf, b"test/path", &demo_row(), false);
    let result = String::from_utf8(buf).unwrap();

    assert!(result.starts_with("1-2,1234567890,1234567891,1000,1000,755,1024,1024,"));
    assert!(result.ends_with("\n"));
}

#[test]
fn test_write_row_csv_no_atime() {
    let mut buf = Vec::new();
    write_row_csv(&mut buf, b"test/path", &demo_row(), true);
    let result = String::from_utf8(buf).unwrap();

    assert!(result.starts_with("1-2,0,1234567891,1000,1000,755,1024,1024,"));
}

#[test]
fn test_write_row_bin_with_atime() {
    let mut buf = Vec::new();
    write_row_bin(&mut buf, b"test", &demo_row(), false);

    assert!(buf.len() >= 68);

    let path_len = u32::from_le_bytes([buf[0], buf[1], buf[2], buf[3]]);
    assert_eq!(path_len, 4);
}

#[test]
fn test_write_row_bin_no_atime() {
    let mut buf = Vec::new();
    write_row_bin(&mut buf, b"test", &demo_row(), true);

    let path_len = u32::from_le_bytes([buf[0], buf[1], buf[2], buf[3]]) as usize;
    let atime_offset = 4 + path_len + 8 + 8;
    let atime_bytes = &buf[atime_offset..atime_offset + 8];
    let atime = i64::from_le_bytes([
        atime_bytes[0],
        atime_bytes[1],
        atime_bytes[2],
        atime_bytes[3],
        atime_bytes[4],
        atime_bytes[5],
        atime_bytes[6],
        atime_bytes[7],
    ]);
    assert_eq!(atime, 0);
}

#[test]
fn test_write_row_bin_empty_path() {
    let mut buf = Vec::new();
    let row = Row { dev: 0, ino: 0, mode: 0, uid: 0, gid: 0, size: 0, blocks: 0, atime: 0, mtime: 0 };
    write_row_bin(&mut buf, b"", &row, false);

    let path_len = u32::from_le_bytes([buf[0], buf[1], buf[2], buf[3]]);
    assert_eq!(path_len, 0);
}

#[test]
fn test_csv_disk_calculation() {
    let mut buf = Vec::new();
    let mut row = demo_row();
    row.blocks = 3;
    write_row_csv(&mut buf, b"test", &row, false);
    let result = String::from_utf8(buf).unwrap();

    assert!(result.contains(",1536,"));
}

#[test]
fn test_bin_disk_calculation() {
    let mut buf = Vec::new();
    let mut row = demo_row();
    row.blocks = 3;
    write_row_bin(&mut buf, b"test", &row, false);

    let disk_offset = buf.len() - 8;
    let disk_bytes = &buf[disk_offset..];
    let disk = u64::from_le_bytes([
        disk_bytes[0],
        disk_bytes[1],
        disk_bytes[2],
        disk_bytes[3],
        disk_bytes[4],
        disk_bytes[5],
        disk_bytes[6],
        disk_bytes[7],
    ]);

    assert_eq!(disk, 1536);
}

#[test]
fn test_write_row_csv_large_buffer() {
    let mut buf = Vec::new();
    for _ in 0..1000 {
        buf.extend_from_slice(&vec![b'x'; 1000]);
    }
    let initial_len = buf.len();
    write_row_csv(&mut buf, b"test/path", &demo_row(), false);
    assert!(buf.len() > initial_len);
}

#[test]
fn test_write_row_bin_large_buffer() {
    let mut buf = Vec::new();
    for _ in 0..1000 {
        buf.extend_from_slice(&vec![b'x'; 1000]);
    }
    let initial_len = buf.len();
    write_row_bin(&mut buf, b"test/path/with/long/name", &demo_row(), false);
    assert!(buf.len() > initial_len);
}

#[test]
fn row_test_row_creation() {
    let row = Row {
        dev: 123,
        ino: 456,
        mode: 0o644,
        uid: 1000,
        gid: 1000,
        size: 1024,
        blocks: 2,
        atime: 1640995200,
        mtime: 1640995200,
    };

    assert_eq!(row.dev, 123);
    assert_eq!(row.ino, 456);
    assert_eq!(row.mode, 0o644);
    assert_eq!(row.uid, 1000);
    assert_eq!(row.gid, 1000);
    assert_eq!(row.size, 1024);
    assert_eq!(row.blocks, 2);
    assert_eq!(row.atime, 1640995200);
    assert_eq!(row.mtime, 1640995200);
}

#[test]
fn test_constants() {
    assert_eq!(FILE_CHUNK, 2048);
    assert_eq!(FLUSH_BYTES, 4 * 1024 * 1024);
}

#[test]
fn worker_test_stats_default() {
    let stats = Stats::default();
    assert_eq!(stats.files, 0);
    assert_eq!(stats.errors, 0);
    assert_eq!(stats.bytes, 0);
}

#[test]
fn test_config_clone() {
    let config = Config {
        skip: Some(b"test".to_vec()),
        out_fmt: OutputFormat::Csv,
        no_atime: true,
        pid: 123,
        verbose: 0,
    };

    let cloned = config.clone();
    assert_eq!(cloned.skip, Some(b"test".to_vec()));
    assert_eq!(cloned.out_fmt, OutputFormat::Csv);
    assert!(cloned.no_atime);
    assert_eq!(cloned.pid, 123);
}

#[test]
fn test_config_variations() {
    let cfg1 = Config {
        skip: None,
        out_fmt: OutputFormat::Bin,
        no_atime: false,
        pid: 1,
        verbose: 0,
    };

    let cfg2 = cfg1.clone();
    assert_eq!(cfg1.out_fmt, cfg2.out_fmt);
    assert_eq!(cfg1.no_atime, cfg2.no_atime);
    assert_eq!(cfg1.pid, cfg2.pid);
}

#[test]
fn test_output_format_equality() {
    assert_eq!(OutputFormat::Csv, OutputFormat::Csv);
    assert_eq!(OutputFormat::Bin, OutputFormat::Bin);
    assert_ne!(OutputFormat::Csv, OutputFormat::Bin);
}

#[test]
fn chunking_keeps_order_and_sizes() {
    // more entries than one chunk: full chunks first, the tail last
    let count = FILE_CHUNK + 10;
    let names: Vec<Vec<u8>> = (0..count).map(|i| format!("file{}", i).into_bytes()).collect();
    let batches = chunk_files(names.clone());
    assert_eq!(batches.len(), 2);
    assert_eq!(batches[0].len(), FILE_CHUNK);
    assert_eq!(batches[1].len(), 10);
    let flat: Vec<Vec<u8>> = batches.into_iter().flatten().collect();
    assert_eq!(flat, names);
}

#[test]
fn shutdown_fires_only_after_five_zero_samples() {
    // one directory of work: the counter must read zero five times in a row
    let mut watch = ShutdownWatch::new();
    assert!(!watch.observe(1));
    for _ in 0..4 {
        assert!(!watch.observe(0));
    }
    assert!(watch.observe(0));

    // a nonzero sample in between starts the count over
    let mut watch = ShutdownWatch::new();
    for _ in 0..4 {
        assert!(!watch.observe(0));
    }
    assert!(!watch.observe(3));
    for _ in 0..4 {
        assert!(!watch.observe(0));
    }
    assert!(watch.observe(0));
}

#[test]
fn scan_of_large_flat_directory_terminates_cleanly() {
    // a directory of FILE_CHUNK + 1 files and no subdirectories: one row for
    // the directory itself, one per file, and the in-flight count returns to
    // zero exactly once
    let count = FILE_CHUNK + 1;
    let names: Vec<Vec<u8>> = (0..count).map(|i| format!("f{}", i).into_bytes()).collect();
    let batches = chunk_files(names);
    assert_eq!(batches.len(), 2);

    // the dispatcher model: seed one directory, then its file batches
    let mut inflight: usize = 1;
    let mut rows: usize = 0;
    let mut zero_crossings = 0;

    // the worker takes the directory: emits its row and enqueues the batches
    rows += 1;
    inflight += batches.len();
    inflight -= 1;
    if inflight == 0 {
        zero_crossings += 1;
    }
    for b in &batches {
        rows += b.len();
        inflight -= 1;
        if inflight == 0 {
            zero_crossings += 1;
        }
    }

    assert_eq!(rows, count + 1);
    assert_eq!(inflight, 0);
    assert_eq!(zero_crossings, 1);

    // only now does the watcher reach its fifth zero and fire
    let mut watch = ShutdownWatch::new();
    let mut fired = 0;
    for _ in 0..5 {
        if watch.observe(inflight) {
            fired += 1;
        }
    }
    assert_eq!(fired, 1);
}

#[test]
fn merge_concatenates_in_shard_order() {
    let shards = vec![b"b\n".to_vec(), b"a\n".to_vec()];
    let bin = merge_bin_contents(&shards);
    assert_eq!(bin, b"b\na\n".to_vec());

    let csv = merge_csv_contents(&shards);
    let s = String::from_utf8(csv).unwrap();
    let mut lines = s.lines();
    assert_eq!(lines.next().unwrap(), "INODE,ATIME,MTIME,UID,GID,MODE,SIZE,DISK,PATH");
    assert_eq!(lines.next().unwrap(), "b");
    assert_eq!(lines.next().unwrap(), "a");
}

#[test]
fn sorted_merge_orders_lines_and_drops_blanks() {
    let shards = vec![b"b\n\n   \n".to_vec(), b"a\n".to_vec()];
    let csv = merge_csv_contents_sorted(&shards);
    let s = String::from_utf8(csv).unwrap();
    let lines: Vec<&str> = s.lines().collect();
    assert_eq!(lines[0], "INODE,ATIME,MTIME,UID,GID,MODE,SIZE,DISK,PATH");
    assert_eq!(&lines[1..], &["a", "b"]);
}
