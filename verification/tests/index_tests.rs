use dutopia::index::{canonical_key, normalize_path, path_to_components, InMemoryFSIndex, Stats,
    TrieNode};

#[test]
fn test_normalize_and_canonical() {
    assert_eq!(normalize_path(b"foo/bar"), b"/foo/bar".to_vec());
    assert_eq!(canonical_key(b"/foo/bar/"), b"/foo/bar".to_vec());
    assert_eq!(
        path_to_components(b"/a/b/c"),
        vec![b"a".to_vec(), b"b".to_vec(), b"c".to_vec()]
    );
}

#[test]
fn test_normalize_path_root() {
    assert_eq!(normalize_path(b"/"), b"/".to_vec());
    assert_eq!(canonical_key(b"/"), b"/".to_vec());
}

#[test]
fn test_path_to_components_root() {
    let comps = path_to_components(b"/");
    assert!(comps.is_empty());
}

#[test]
fn index_test_stats_default() {
    let stats = Stats::default();
    assert_eq!(stats.file_count, 0);
    assert_eq!(stats.file_size, 0);
    assert_eq!(stats.disk_bytes, 0);
    assert_eq!(stats.linked_size, 0);
    assert_eq!(stats.latest_atime, 0);
    assert_eq!(stats.latest_mtime, 0);
}

#[test]
fn test_stats_accumulation_with_linked() {
    let mut stats = Stats::default();

    stats.file_count = 1;
    stats.file_size = 1000;
    stats.disk_bytes = 1000;
    stats.linked_size = 0;

    stats.file_count += 1;
    stats.file_size += 1000;
    stats.disk_bytes += 0;
    stats.linked_size += 1000;

    assert_eq!(stats.file_count, 2);
    assert_eq!(stats.file_size, 2000);
    assert_eq!(stats.disk_bytes, 1000);
    assert_eq!(stats.linked_size, 1000);
}

#[test]
fn test_trie_node_new() {
    let node = TrieNode::new();
    assert!(node.children.is_empty());
    assert!(node.users.is_empty());
}

#[test]
fn test_inmemory_index_new() {
    let idx = InMemoryFSIndex::new();
    assert_eq!(idx.total_entries, 0);
}

fn demo_csv() -> Vec<u8> {
    b"path,user,age,files,size,disk,linked,atime,mtime\n\
      /,alice,0,2,200,100,0,1700000000,1700000100\n\
      /,bob,1,1,50,50,0,1600000000,1600000100\n\
      /docs,alice,2,3,600,300,300,1500000000,1500000050\n"
        .to_vec()
}

#[test]
fn test_load_from_csv() {
    let mut idx = InMemoryFSIndex::new();
    let users = idx.load_from_csv(&demo_csv());

    assert!(users.contains(&b"alice".to_vec()));
    assert!(users.contains(&b"bob".to_vec()));
    assert_eq!(idx.total_entries, 3);
}

#[test]
fn test_list_children() {
    let mut idx = InMemoryFSIndex::new();
    idx.load_from_csv(&demo_csv());

    let items = idx.list_children(b"/", &Vec::new(), None).unwrap();
    assert!(items.iter().any(|it| it.path == b"/docs".to_vec()));
}

#[test]
fn test_list_children_with_user_filter() {
    let csv = b"path,user,age,files,size,disk,linked,atime,mtime\n\
        /docs,alice,0,2,200,100,0,1700000000,1700000100\n\
        /docs,bob,0,1,50,50,0,1600000000,1600000100\n"
        .to_vec();
    let mut idx = InMemoryFSIndex::new();
    idx.load_from_csv(&csv);

    let items = idx.list_children(b"/", &vec![b"alice".to_vec()], None).unwrap();
    assert_eq!(items.len(), 1);
    let docs = &items[0];
    assert!(docs.users.iter().any(|u| u.user == b"alice".to_vec()));
    assert!(!docs.users.iter().any(|u| u.user == b"bob".to_vec()));
}

#[test]
fn test_list_children_with_age_filter() {
    let csv = b"path,user,age,files,size,disk,linked,atime,mtime\n\
        /docs,alice,0,2,200,100,0,1700000000,1700000100\n\
        /docs,alice,2,3,600,300,300,1500000000,1500000050\n"
        .to_vec();
    let mut idx = InMemoryFSIndex::new();
    idx.load_from_csv(&csv);

    let items = idx.list_children(b"/", &Vec::new(), Some(2)).unwrap();
    let docs = &items[0];
    let alice_ages = &docs.users.iter().find(|u| u.user == b"alice".to_vec()).unwrap().ages;
    assert!(alice_ages.iter().any(|(b, _)| *b == 2));
    assert!(!alice_ages.iter().any(|(b, _)| *b == 0));
}

#[test]
fn list_children_unknown_directory_fails() {
    let mut idx = InMemoryFSIndex::new();
    idx.load_from_csv(&demo_csv());
    let r = idx.list_children(b"/nope", &Vec::new(), None);
    assert!(r.is_err());
    assert!(r.unwrap_err().message().contains("Directory not found"));
}

#[test]
fn list_children_every_folder_has_owners_and_buckets() {
    // every folder returned carries at least one owner, and every owner at
    // least one bucket; a filtered owner never appears
    let mut idx = InMemoryFSIndex::new();
    idx.load_from_csv(&demo_csv());

    let all = idx.list_children(b"/", &Vec::new(), None).unwrap();
    assert!(all.len() >= 1);
    for fo in &all {
        assert!(!fo.users.is_empty());
        for ua in &fo.users {
            assert!(!ua.ages.is_empty());
        }
    }

    let only_alice = idx.list_children(b"/", &vec![b"alice".to_vec()], None).unwrap();
    for fo in &only_alice {
        assert!(!fo.users.is_empty());
        for ua in &fo.users {
            assert_eq!(ua.user, b"alice".to_vec());
        }
    }
}

#[test]
fn list_children_sorts_by_path() {
    let csv = b"path,user,age,files,size,disk,linked,atime,mtime\n\
        /zeta,alice,0,1,1,1,0,1,1\n\
        /alpha,alice,0,1,1,1,0,1,1\n\
        /mid,alice,0,1,1,1,0,1,1\n"
        .to_vec();
    let mut idx = InMemoryFSIndex::new();
    idx.load_from_csv(&csv);
    let items = idx.list_children(b"/", &Vec::new(), None).unwrap();
    let names: Vec<Vec<u8>> = items.iter().map(|f| f.path.clone()).collect();
    assert_eq!(names, vec![b"/alpha".to_vec(), b"/mid".to_vec(), b"/zeta".to_vec()]);
}
