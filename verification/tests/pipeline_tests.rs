//! End-to-end runs of the core pipeline: rows written by the scanner codec,
//! folded by the aggregator, served by the index.

use dutopia::aggregate::{write_results, Aggregator};
use dutopia::binary::{csv_to_zst_bytes, zst_to_csv_bytes};
use dutopia::index::{canonical_key, normalize_path, InMemoryFSIndex};
use dutopia::record::parse_csv_line_bytes;
use dutopia::row::{write_row_csv, Row};
use dutopia::stats::AgeCfg;

fn row(ino: u64, size: u64, mtime: i64) -> Row {
    Row {
        dev: 2049,
        ino,
        mode: 33188,
        uid: 1000,
        gid: 1000,
        size,
        blocks: size / 512,
        atime: mtime,
        mtime,
    }
}

#[test]
fn canonical_key_edge_cases() {
    assert_eq!(canonical_key(b""), b"".to_vec());
    assert_eq!(canonical_key(b"//"), b"/".to_vec());
    assert_eq!(canonical_key(b"/a///"), b"/a".to_vec());
    assert_eq!(normalize_path(b""), b"".to_vec());
    assert_eq!(normalize_path(b"a\\b"), b"/a/b".to_vec());
}

#[test]
fn scan_rows_aggregate_and_index() {
    // write scanner rows, fold them, render the rollup, index it, query it
    let now = 1_700_000_000i64;
    let cfg = AgeCfg::default();

    let mut csv: Vec<u8> = Vec::new();
    write_row_csv(&mut csv, b"/home/alice/a.txt", &row(1, 1024, now), false);
    write_row_csv(&mut csv, b"/home/alice/b.txt", &row(2, 2048, now), false);
    write_row_csv(&mut csv, b"/srv/data/c.bin", &row(3, 512, now - 700 * 86_400), false);

    let mut agg = Aggregator::new();
    for line in csv.split(|&b| b == b'\n') {
        if line.is_empty() {
            continue;
        }
        let f = parse_csv_line_bytes(line);
        assert_eq!(f.len(), 9);
        let uid = dutopia::num::parse_int_u32(Some(&f[3]));
        let mode = dutopia::num::parse_int_u32(Some(&f[5]));
        let atime = dutopia::num::parse_int_i64(Some(&f[1]));
        let mtime = dutopia::num::parse_int_i64(Some(&f[2]));
        let size = dutopia::num::parse_int_u64(Some(&f[6]));
        let disk = dutopia::num::parse_int_u64(Some(&f[7]));
        agg.add_row(&f[0], mode, atime, mtime, uid, b"alice", size, disk, &f[8], now, cfg);
    }

    let rollup = write_results(&agg);
    let shown = String::from_utf8(rollup.clone()).unwrap();
    assert!(shown.starts_with("path,user,age,files,size,disk,linked,accessed,modified\n"));

    let mut idx = InMemoryFSIndex::new();
    let users = idx.load_from_csv(&rollup);
    assert_eq!(users, vec![b"alice".to_vec()]);

    let top = idx.list_children(b"/", &Vec::new(), None).unwrap();
    let names: Vec<Vec<u8>> = top.iter().map(|f| f.path.clone()).collect();
    assert_eq!(names, vec![b"/home".to_vec(), b"/srv".to_vec()]);

    // the recent files sit in bucket 0 under /home, the old one in bucket 2
    let home = &top[0];
    let ua = &home.users[0];
    assert_eq!(ua.user, b"alice".to_vec());
    let (bucket, cell) = ua.ages[0];
    assert_eq!(bucket, 0);
    assert_eq!(cell.count, 2);
    assert_eq!(cell.size, 1024 + 2048);

    let srv = &top[1];
    let (bucket, cell) = srv.users[0].ages[0];
    assert_eq!(bucket, 2);
    assert_eq!(cell.count, 1);
}

#[test]
fn scanner_csv_compresses_and_comes_back() {
    // the scanner's CSV artifact survives the binary round trip byte-exact
    let now = 1_700_000_000i64;
    let mut body: Vec<u8> = Vec::new();
    write_row_csv(&mut body, b"/x/plain.txt", &row(7, 4096, now), false);
    write_row_csv(&mut body, b"/x/odd,name \"q\".txt", &row(8, 100, now), false);

    let mut file = b"INODE,ATIME,MTIME,UID,GID,MODE,SIZE,DISK,PATH\n".to_vec();
    file.extend_from_slice(&body);

    let zst = csv_to_zst_bytes(&file).unwrap();
    let back = zst_to_csv_bytes(&zst).unwrap();
    assert_eq!(back, file);
}
