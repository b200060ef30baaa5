use dutopia::items::{get_items, FsItemIn};
use dutopia::query::parse_users_csv;

#[test]
fn test_parse_users_csv() {
    let v = parse_users_csv(b" alice, bob ,, carol ");
    assert_eq!(v, vec![b"alice".to_vec(), b"bob".to_vec(), b"carol".to_vec()]);
    assert!(parse_users_csv(b" ,, ,").is_empty());
}

#[test]
fn test_parse_users_csv_empty() {
    assert!(parse_users_csv(b"").is_empty());
    assert!(parse_users_csv(b"   ").is_empty());
}

#[test]
fn test_parse_users_csv_single() {
    let v = parse_users_csv(b"alice");
    assert_eq!(v, vec![b"alice".to_vec()]);
}

fn candidate(path: &[u8], owner: &[u8], mtime: i64, is_file: bool) -> FsItemIn {
    FsItemIn {
        path: path.to_vec(),
        owner: owner.to_vec(),
        size: 10,
        atime: mtime,
        mtime,
        is_file,
    }
}

#[test]
fn get_items_filters_and_sorts() {
    let now = 1_700_000_000i64;
    let cutoff_recent = now - 60 * 86_400;
    let cutoff_old = now - 730 * 86_400;
    let cands = vec![
        candidate(b"/d/b.txt", b"alice", now, true),
        candidate(b"/d/a.txt", b"alice", now, true),
        candidate(b"/d/sub", b"alice", now, false),
        candidate(b"/d/c.txt", b"bob", now, true),
    ];

    let all = get_items(cands, &Vec::new(), None, cutoff_recent, cutoff_old);
    let names: Vec<Vec<u8>> = all.iter().map(|i| i.path.clone()).collect();
    assert_eq!(names, vec![b"/d/a.txt".to_vec(), b"/d/b.txt".to_vec(), b"/d/c.txt".to_vec()]);
}

#[test]
fn get_items_honours_owner_filter() {
    let now = 1_700_000_000i64;
    let cands = vec![
        candidate(b"/d/a.txt", b"alice", now, true),
        candidate(b"/d/c.txt", b"bob", now, true),
    ];
    let only = get_items(cands, &vec![b"bob".to_vec()], None, now - 100, now - 200);
    assert_eq!(only.len(), 1);
    assert_eq!(only[0].owner, b"bob".to_vec());
}

#[test]
fn get_items_honours_age_filter() {
    let now = 1_700_000_000i64;
    let cutoff_recent = now - 60 * 86_400;
    let cutoff_old = now - 730 * 86_400;
    let cands = vec![
        candidate(b"/d/new.txt", b"alice", now, true),
        candidate(b"/d/old.txt", b"alice", cutoff_old - 10, true),
    ];
    let old_only = get_items(cands, &Vec::new(), Some(2), cutoff_recent, cutoff_old);
    assert_eq!(old_only.len(), 1);
    assert_eq!(old_only[0].path, b"/d/old.txt".to_vec());
}
