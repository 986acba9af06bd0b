use dirscan::{get_dir_stats, scan_directory, size_order, summarize_listing, DirectEntry, FileNode, ScanError, WalkEntry};

fn dir(name: &str, path: &str, modified: u64, contents: Vec<WalkEntry>) -> DirectEntry {
    DirectEntry::Dir { name: name.to_string(), path: path.to_string(), modified, contents }
}

fn file(len: u64) -> WalkEntry {
    WalkEntry::File { len: Some(len) }
}

#[test]
fn dir_stats_sum_files_only() {
    let entries = vec![file(10), WalkEntry::Other, file(20), WalkEntry::File { len: None }, WalkEntry::Unreadable];
    assert_eq!(get_dir_stats(&entries), (30, 2));
}

#[test]
fn dir_stats_skip_file_with_unreadable_length() {
    let entries = vec![WalkEntry::Other, WalkEntry::File { len: None }];
    assert_eq!(get_dir_stats(&entries), (0, 0));
}

#[test]
fn non_file_root_entries_are_not_counted() {
    let entries = vec![DirectEntry::Other, DirectEntry::File { len: 8 }, DirectEntry::Other];
    let r = summarize_listing("/r", &entries);
    assert_eq!(r.size, 8);
    assert_eq!(r.file_count, 1);
    assert_eq!(r.children, Some(Vec::new()));
}

#[test]
fn dir_stats_of_nothing() {
    assert_eq!(get_dir_stats(&Vec::new()), (0, 0));
}

#[test]
fn dir_stats_saturate() {
    let entries = vec![file(u64::MAX), file(5)];
    assert_eq!(get_dir_stats(&entries), (u64::MAX, 2));
}

#[test]
fn one_file_and_one_subdirectory() {
    let entries = vec![DirectEntry::File { len: 100 }, dir("sub", "/data/root/sub", 42, vec![file(10), file(20)])];
    let r = scan_directory("/data/root", true, Ok(entries)).unwrap();
    assert_eq!(r.size, 130);
    assert_eq!(r.file_count, 3);
    assert_eq!(r.name, "root");
    assert_eq!(r.path, "/data/root");
    assert!(r.is_dir);
    assert_eq!(r.last_modified, 0);
    let children = r.children.unwrap();
    assert_eq!(children.len(), 1);
    assert_eq!(children[0].size, 30);
    assert_eq!(children[0].file_count, 2);
    assert_eq!(children[0].children, None);
    assert_eq!(children[0].name, "sub");
    assert_eq!(children[0].path, "/data/root/sub");
    assert_eq!(children[0].last_modified, 42);
    assert!(children[0].is_dir);
}

#[test]
fn empty_directory() {
    let r = scan_directory("/data/empty", true, Ok(Vec::new())).unwrap();
    assert_eq!(r.size, 0);
    assert_eq!(r.file_count, 0);
    assert_eq!(r.children, Some(Vec::new()));
}

#[test]
fn missing_root_is_not_found() {
    let r = scan_directory("/no/such", false, Ok(Vec::new()));
    assert_eq!(r, Err(ScanError::NotFound));
    assert_eq!(ScanError::NotFound.message(), "Directory does not exist");
}

#[test]
fn unreadable_root_is_io_error() {
    let r = scan_directory("/locked", true, Err("permission denied".to_string()));
    assert_eq!(r, Err(ScanError::IoError("permission denied".to_string())));
    assert_eq!(ScanError::IoError("permission denied".to_string()).message(), "permission denied");
    assert_eq!(ScanError::ConcurrencyFailure("join".to_string()).message(), "join");
}

#[test]
fn unreadable_subdirectory_contributes_nothing() {
    let entries = vec![
        dir("ok", "/r/ok", 1, vec![file(7)]),
        dir("locked", "/r/locked", 2, vec![WalkEntry::Other, WalkEntry::Unreadable, WalkEntry::File { len: None }]),
        DirectEntry::Unreadable,
        DirectEntry::File { len: 3 },
    ];
    let r = summarize_listing("/r", &entries);
    assert_eq!(r.size, 10);
    assert_eq!(r.file_count, 2);
    let children = r.children.unwrap();
    assert_eq!(children.len(), 2);
    assert_eq!(children[0].name, "ok");
    assert_eq!(children[1].name, "locked");
    assert_eq!(children[1].size, 0);
    assert_eq!(children[1].file_count, 0);
}

#[test]
fn children_largest_first_ties_in_listing_order() {
    let entries = vec![
        dir("a", "/r/a", 0, vec![file(5)]),
        dir("b", "/r/b", 0, vec![file(50)]),
        DirectEntry::File { len: 1000 },
        dir("c", "/r/c", 0, vec![file(5)]),
        dir("d", "/r/d", 0, vec![file(20), file(30)]),
    ];
    let r = summarize_listing("/r", &entries);
    let names: Vec<String> = r.children.unwrap().into_iter().map(|c| c.name).collect();
    assert_eq!(names, vec!["b", "d", "a", "c"]);
    assert_eq!(r.size, 1110);
    assert_eq!(r.file_count, 6);
}

#[test]
fn root_totals_equal_whole_subtree() {
    let entries = vec![
        DirectEntry::File { len: 4 },
        dir("x", "/t/x", 0, vec![file(1), WalkEntry::Other, file(2), file(3)]),
        dir("y", "/t/y", 0, vec![WalkEntry::Other]),
        DirectEntry::File { len: 6 },
    ];
    let r = summarize_listing("/t", &entries);
    assert_eq!(r.size, 16);
    assert_eq!(r.file_count, 5);
}

#[test]
fn root_totals_saturate() {
    let entries = vec![DirectEntry::File { len: u64::MAX }, dir("x", "/t/x", 0, vec![file(9)])];
    let r = summarize_listing("/t", &entries);
    assert_eq!(r.size, u64::MAX);
    assert_eq!(r.file_count, 2);
}

#[test]
fn root_name_is_final_component() {
    assert_eq!(summarize_listing("/a/b/c", &Vec::new()).name, "c");
    assert_eq!(summarize_listing("/", &Vec::new()).name, "");
    assert_eq!(summarize_listing("rel", &Vec::new()).name, "rel");
}

#[test]
fn order_is_stable_descending() {
    assert_eq!(size_order(&vec![3, 9, 3, 1, 9]), vec![1, 4, 0, 2, 3]);
    assert_eq!(size_order(&Vec::new()), Vec::<usize>::new());
}

#[test]
fn duplicate_copies_deeply() {
    let leaf = FileNode {
        name: "s".to_string(),
        path: "/p/s".to_string(),
        size: 3,
        is_dir: true,
        children: None,
        last_modified: 9,
        file_count: 1,
    };
    let root = FileNode {
        name: "p".to_string(),
        path: "/p".to_string(),
        size: 3,
        is_dir: true,
        children: Some(vec![leaf]),
        last_modified: 0,
        file_count: 1,
    };
    assert_eq!(root.duplicate(), root);
}
