use dutopia::aggregate::{bytes_to_safe_string, count_lines, get_folder_ancestors,
    get_username_from_uid, resolve_user, write_unknown_uids, Aggregator};
use dutopia::stats::AgeCfg;
use std::collections::HashMap;

#[test]
fn bytes_to_safe_string_handles_invalid_utf8() {
    let bad = [0xFFu8, b'a', 0xFE, b'b'];
    let s = bytes_to_safe_string(&bad);
    assert!(s.contains('\u{FFFD}'));
    assert!(s.contains('a') && s.contains('b'));
}

#[test]
fn bytes_to_safe_string_always_utf8() {
    let raw = [b'/', 0xFFu8, b'a', b'/', 0xFE, b'b'];
    let s = bytes_to_safe_string(&raw);
    assert!(s.is_char_boundary(s.len()));
    assert!(s.contains('\u{FFFD}'));
    assert!(s.contains("/"));
}

#[test]
fn ancestors_from_non_utf8_bytes() {
    let raw = [b'/', 0xFFu8, b'a', b'/', b'b', b'/', b'c', b'/', b'f', b'.', b't', b'x', b't'];
    let ancestors = get_folder_ancestors(&raw);
    assert_eq!(ancestors[0], b"/".to_vec());
    assert!(ancestors.contains(&vec![b'/', 0xFFu8, b'a']));
    assert!(ancestors.contains(&vec![b'/', 0xFFu8, b'a', b'/', b'b']));
}

#[test]
fn ancestors_trailing_slashes_and_multi_seps() {
    let res = get_folder_ancestors(b"/a//b///c//file.txt");
    assert_eq!(res, vec![b"/".to_vec(), b"/a".to_vec(), b"/a/b".to_vec(), b"/a/b/c".to_vec()]);
}

#[test]
fn ancestors_windows_backslashes_normalized() {
    let res = get_folder_ancestors(b"C:\\a\\b\\file.txt");
    assert_eq!(
        res,
        vec![b"/".to_vec(), b"/C:".to_vec(), b"/C:/a".to_vec(), b"/C:/a/b".to_vec()]
    );
}

#[test]
fn ancestors_handles_root_only() {
    assert_eq!(get_folder_ancestors(b"/file.txt"), vec![b"/".to_vec()]);
    assert_eq!(get_folder_ancestors(b"/"), vec![b"/".to_vec()]);
}

#[test]
fn ancestors_handles_relative_paths() {
    let res = get_folder_ancestors(b"file.txt");
    assert_eq!(res, vec![b"/".to_vec()]);
}

#[test]
fn ancestors_simple_nested_path() {
    let res = get_folder_ancestors(b"/a/b/c/file.txt");
    assert_eq!(res, vec![b"/".to_vec(), b"/a".to_vec(), b"/a/b".to_vec(), b"/a/b/c".to_vec()]);
}

#[test]
fn ancestors_single_level_path() {
    let res = get_folder_ancestors(b"/a/file.txt");
    assert_eq!(res, vec![b"/".to_vec(), b"/a".to_vec()]);
}

#[test]
fn ancestors_root_is_always_first() {
    for path in [&b"/x/y/z"[..], b"rel/p", b"", b"////", b"\\srv\\share"] {
        let res = get_folder_ancestors(path);
        assert!(!res.is_empty());
        assert_eq!(res[0], b"/".to_vec());
        // each later key strictly extends the one before it
        for w in res.windows(2) {
            assert!(w[1].len() > w[0].len());
            assert_eq!(&w[1][..w[0].len()], &w[0][..]);
        }
    }
}

#[test]
fn resolve_user_caches_fallback_names() {
    let mut cache: HashMap<u32, Vec<u8>> = HashMap::new();
    let n = resolve_user(1000, &mut cache);
    assert_eq!(n, b"1000".to_vec());
    let again = resolve_user(1000, &mut cache);
    assert_eq!(again, b"1000".to_vec());
    assert_eq!(cache.len(), 1);
    assert_eq!(get_username_from_uid(42), b"42".to_vec());
}

fn one_cell<'a>(
    agg: &'a Aggregator,
    path: &[u8],
    user: &[u8],
    age: u8,
) -> Option<&'a dutopia::stats::UserStats> {
    for i in 0..agg.keys.len() {
        let k = &agg.keys[i];
        if k.path == path && k.user == user && k.age == age {
            return Some(&agg.cells[i]);
        }
    }
    None
}

#[test]
fn aggregation_with_hardlink_charges_disk_once() {
    // two rows for the same inode: the first owns the disk bytes, the
    // second only adds linked size
    let mut agg = Aggregator::new();
    let cfg = AgeCfg { young: 60, old: 600 };
    let now = 1_700_000_000i64;
    agg.add_row(b"2049-7", 33188, now, now, 1000, b"alice", 1000, 1000, b"/a/f1", now, cfg);
    agg.add_row(b"2049-7", 33188, now, now, 1000, b"alice", 1000, 1000, b"/a/f2", now, cfg);

    let cell = one_cell(&agg, b"/a", b"alice", 0).unwrap();
    assert_eq!(cell.file_count, 2);
    assert_eq!(cell.file_size, 2000);
    assert_eq!(cell.disk_size, 1000);
    assert_eq!(cell.linked_size, 1000);
}

#[test]
fn aggregation_zeroes_directory_atime() {
    let mut agg = Aggregator::new();
    let cfg = AgeCfg { young: 60, old: 600 };
    let now = 1_700_000_000i64;
    // mode 16877 is a directory: its access time must not reach the cell
    agg.add_row(b"1-1", 16877, now, now, 0, b"root", 0, 0, b"/d/sub", now, cfg);
    let cell = one_cell(&agg, b"/d", b"root", 0).unwrap();
    assert_eq!(cell.latest_atime, 0);
    assert_eq!(cell.latest_mtime, now);
}

#[test]
fn aggregation_sanitizes_future_mtime() {
    let mut agg = Aggregator::new();
    let cfg = AgeCfg { young: 60, old: 600 };
    let now = 1_700_000_000i64;
    // one day ahead is kept, one second past that reads as unknown
    agg.add_row(b"1-2", 33188, now, now + 86_400, 0, b"root", 1, 1, b"/d/a", now, cfg);
    let kept = one_cell(&agg, b"/d", b"root", 0).unwrap();
    assert_eq!(kept.latest_mtime, now + 86_400);

    agg.add_row(b"1-3", 33188, now, now + 86_401, 0, b"root", 1, 1, b"/e/b", now, cfg);
    let dropped = one_cell(&agg, b"/e", b"root", 2).unwrap();
    assert_eq!(dropped.latest_mtime, 0);
}

#[test]
fn aggregation_records_unknown_uids() {
    let mut agg = Aggregator::new();
    let cfg = AgeCfg::default();
    let now = 1_700_000_000i64;
    agg.add_row(b"1-5", 33188, now, now, 4242, b"UNK", 1, 1, b"/u/f", now, cfg);
    assert!(agg.unk_uids.contains(&4242));
}

#[test]
fn write_unknown_uids_is_sorted() {
    let uids = vec![42u32, 7, 1000];
    let out = write_unknown_uids(&uids);
    let s = String::from_utf8(out).unwrap();
    let lines: Vec<&str> = s.lines().collect();
    assert_eq!(lines, vec!["7", "42", "1000"]);
}

#[test]
fn write_unknown_uids_empty_set() {
    let uids: Vec<u32> = Vec::new();
    let out = write_unknown_uids(&uids);
    assert!(out.is_empty());
}

#[test]
fn count_lines_counts_unterminated_tail() {
    assert_eq!(count_lines(b""), 0);
    assert_eq!(count_lines(b"a\nb\nc"), 3);
    assert_eq!(count_lines(b"a\nb\nc\n"), 3);
}
