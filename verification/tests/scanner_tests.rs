use rdirstat::scanner::{
    EntryCollector, ProgressThrottle, ScanConfig, ScanError, Scanner, WalkStep, REPORT_FILE_STEP,
    REPORT_INTERVAL_MS, REPORT_SIZE_STEP,
};
use rdirstat::tree::{FileEntry, TreeNode};

fn e(path: &str, size: u64, is_dir: bool) -> FileEntry {
    FileEntry::new(path.to_string(), size, is_dir)
}

fn find<'a>(node: &'a TreeNode, path: &str) -> &'a TreeNode {
    node.children
        .iter()
        .find(|c| c.entry.path == path)
        .expect("child present")
}

#[test]
fn default_config_skips_hidden_and_ignores_no_ignore_files() {
    let c = ScanConfig::default();
    assert!(!c.follow_links);
    assert_eq!(c.max_depth, None);
    assert!(c.ignore_hidden);
    assert!(!c.respect_ignore_files);
    assert!(c.ignore_patterns.is_empty());
    assert_eq!(c.num_threads, None);
}

#[test]
fn thread_count_prefers_the_configured_number() {
    let c = ScanConfig {
        num_threads: Some(3),
        ..Default::default()
    };
    assert_eq!(c.thread_count(), 3);
    assert!(ScanConfig::default().thread_count() >= 1);
}

#[test]
fn scan_of_a_missing_path_is_path_not_found() {
    let scanner = Scanner::new(ScanConfig::default());
    match scanner.scan(&"/no/such".to_string(), false, vec![e("/no/such/x", 1, false)]) {
        Err(ScanError::PathNotFound(p)) => assert_eq!(p, "/no/such"),
        Ok(_) => panic!("expected an error"),
    }
}

#[test]
fn error_message_names_the_path() {
    let err = ScanError::PathNotFound("/gone".to_string());
    assert_eq!(err.message(), "Path not found: /gone");
}

#[test]
fn build_tree_sums_sizes_and_counts() {
    let entries = vec![
        e("/r", 4096, true),
        e("/r/a.txt", 100, false),
        e("/r/sub", 4096, true),
        e("/r/sub/b.bin", 1000, false),
        e("/r/sub/c.bin", 24, false),
    ];
    let tree = Scanner::build_tree(&"/r".to_string(), entries);
    assert_eq!(tree.root.entry.path, "/r");
    assert_eq!(tree.root.entry.size, 4096 + 100 + 4096 + 1000 + 24);
    assert_eq!(tree.total_size, tree.root.entry.size);
    assert_eq!(tree.total_files, 3);
    assert_eq!(tree.total_dirs, 2);
    let sub = find(&tree.root, "/r/sub");
    assert_eq!(sub.entry.size, 4096 + 1000 + 24);
    let names: Vec<&str> = sub.children.iter().map(|c| c.entry.path.as_str()).collect();
    assert_eq!(names, vec!["/r/sub/b.bin", "/r/sub/c.bin"]);
    // children come in scan order
    let top: Vec<&str> = tree.root.children.iter().map(|c| c.entry.path.as_str()).collect();
    assert_eq!(top, vec!["/r/a.txt", "/r/sub"]);
}

#[test]
fn build_tree_adds_the_root_when_it_was_not_scanned() {
    let entries = vec![e("/r/x", 10, false), e("/r/y", 20, false)];
    let tree = Scanner::build_tree(&"/r".to_string(), entries);
    assert!(tree.root.entry.is_directory);
    assert_eq!(tree.root.entry.size, 30);
    assert_eq!(tree.total_files, 2);
    assert_eq!(tree.total_dirs, 1);
    assert_eq!(tree.root.children.len(), 2);
}

#[test]
fn build_tree_drops_entries_without_a_parent_node() {
    let entries = vec![e("/r", 0, true), e("/r/a/deep", 5, false), e("/elsewhere", 9, false)];
    let tree = Scanner::build_tree(&"/r".to_string(), entries);
    assert!(tree.root.children.is_empty());
    assert_eq!(tree.total_size, 0);
    assert_eq!((tree.total_files, tree.total_dirs), (0, 1));
}

#[test]
fn build_tree_saturates_sizes() {
    let entries = vec![e("/r", 0, true), e("/r/a", u64::MAX, false), e("/r/b", 5, false)];
    let tree = Scanner::build_tree(&"/r".to_string(), entries);
    assert_eq!(tree.total_size, u64::MAX);
}

#[test]
fn build_tree_with_relative_paths() {
    let entries = vec![e(".", 0, true), e("./a", 2, false), e("./d", 1, true), e("./d/f", 3, false)];
    let tree = Scanner::build_tree(&".".to_string(), entries);
    assert_eq!(tree.total_size, 6);
    assert_eq!(find(&tree.root, "./d").entry.size, 4);
}

#[test]
fn scan_builds_the_tree_of_the_entries() {
    let scanner = Scanner::new(ScanConfig::default());
    let tree = scanner
        .scan(&"/r".to_string(), true, vec![e("/r", 1, true), e("/r/f", 2, false)])
        .unwrap();
    assert_eq!(tree.total_size, 3);
    assert_eq!(tree.total_files, 1);
}

#[test]
fn collector_keeps_each_inode_once() {
    let mut c = EntryCollector::new();
    assert_eq!(c.record("/r/a".to_string(), 1, 10, 8, false), Some((1, 4096)));
    // a hard link to the same inode is skipped
    assert_eq!(c.record("/r/link".to_string(), 1, 10, 8, false), None);
    // the same inode number on another device is another file
    assert_eq!(c.record("/mnt/a".to_string(), 2, 10, 1, false), Some((2, 4608)));
    assert_eq!(c.scanned(), 2);
    assert_eq!(c.total_size(), 4608);
    let entries = c.into_entries();
    assert_eq!(entries.len(), 2);
    assert_eq!(entries[0].size, 4096);
    assert_eq!((entries[1].device, entries[1].inode), (2, 10));
    assert_eq!((entries[1].file_count, entries[1].dir_count), (1, 0));
}

#[test]
fn collector_saturates_allocated_size() {
    let mut c = EntryCollector::new();
    assert_eq!(c.record("/big".to_string(), 1, 1, u64::MAX, true), Some((1, u64::MAX)));
    let entries = c.into_entries();
    assert_eq!(entries[0].size, u64::MAX);
    assert_eq!(entries[0].dir_count, 1);
}

#[test]
fn collector_cancel_is_remembered() {
    let mut c = EntryCollector::new();
    assert!(!c.is_cancelled());
    c.cancel();
    assert!(c.is_cancelled());
}

#[test]
fn throttle_reports_after_the_interval_or_a_large_change() {
    let mut t = ProgressThrottle::new(1000);
    assert!(!t.should_report(1000 + REPORT_INTERVAL_MS - 1, 10, 10));
    assert!(t.should_report(1000 + REPORT_INTERVAL_MS, 10, 10));
    assert!(t.should_report(1001, REPORT_FILE_STEP + 1, 0));
    assert!(!t.should_report(1001, REPORT_FILE_STEP, 0));
    assert!(t.should_report(1001, 0, REPORT_SIZE_STEP + 1));
    t.mark_reported(1600, 50, 60);
    assert_eq!((t.last_report_ms, t.last_files, t.last_bytes), (1600, 50, 60));
    assert!(!t.should_report(1700, 60, 70));
}

fn keys(node: &TreeNode, out: &mut Vec<(u64, u64)>) {
    out.push((node.entry.device, node.entry.inode));
    for c in &node.children {
        keys(c, out);
    }
}

#[test]
fn hard_linked_file_is_counted_once() {
    let mut c = EntryCollector::new();
    c.record("/r".to_string(), 1, 1, 8, true);
    c.record("/r/a".to_string(), 1, 10, 8, false);
    c.record("/r/d".to_string(), 1, 11, 8, true);
    assert_eq!(c.record("/r/d/link".to_string(), 1, 10, 8, false), None);
    c.record("/r/d/b".to_string(), 1, 12, 2, false);
    let tree = Scanner::build_tree(&"/r".to_string(), c.into_entries());
    let mut ks = Vec::new();
    keys(&tree.root, &mut ks);
    let mut sorted = ks.clone();
    sorted.sort();
    sorted.dedup();
    assert_eq!(sorted.len(), ks.len());
    assert_eq!(ks.len(), 4);
    assert_eq!(tree.total_files, 2);
    assert_eq!(tree.total_size, 3 * 4096 + 1024);
}

fn shape(node: &TreeNode) -> Vec<(String, u64, bool, Vec<String>)> {
    let mut out = Vec::new();
    let mut kids: Vec<String> = node.children.iter().map(|c| c.entry.path.clone()).collect();
    kids.sort();
    out.push((node.entry.path.clone(), node.entry.size, node.entry.is_directory, kids));
    for c in &node.children {
        out.extend(shape(c));
    }
    out.sort();
    out
}

#[test]
fn entry_order_changes_only_the_order_of_children() {
    let first = vec![
        e("/r", 0, true),
        e("/r/a", 5, false),
        e("/r/d", 1, true),
        e("/r/d/x", 7, false),
        e("/r/d/y", 2, false),
        e("/r/b", 3, false),
    ];
    let second = vec![
        e("/r/d/y", 2, false),
        e("/r/b", 3, false),
        e("/r/d", 1, true),
        e("/r", 0, true),
        e("/r/d/x", 7, false),
        e("/r/a", 5, false),
    ];
    let t1 = Scanner::build_tree(&"/r".to_string(), first);
    let t2 = Scanner::build_tree(&"/r".to_string(), second);
    assert_eq!(shape(&t1.root), shape(&t2.root));
    assert_eq!(
        (t1.total_size, t1.total_files, t1.total_dirs),
        (t2.total_size, t2.total_files, t2.total_dirs)
    );
    assert_eq!((t1.total_size, t1.total_files, t1.total_dirs), (18, 4, 2));
    let order1: Vec<&str> = t1.root.children.iter().map(|c| c.entry.path.as_str()).collect();
    let order2: Vec<&str> = t2.root.children.iter().map(|c| c.entry.path.as_str()).collect();
    assert_eq!(order1, vec!["/r/a", "/r/d", "/r/b"]);
    assert_eq!(order2, vec!["/r/b", "/r/d", "/r/a"]);
}

#[test]
fn root_with_a_trailing_separator_keeps_its_children() {
    let tree = Scanner::build_tree(
        &"d/".to_string(),
        vec![e("d/", 0, true), e("d/x", 100, false), e("d/sub", 0, true), e("d/sub/y", 20, false)],
    );
    assert_eq!(tree.root.entry.path, "d/");
    assert_eq!(tree.root.children.len(), 2);
    assert_eq!(find(&tree.root, "d/sub").children.len(), 1);
    assert_eq!((tree.total_size, tree.total_files, tree.total_dirs), (120, 2, 2));
}

#[test]
fn paths_are_matched_as_paths_not_as_text() {
    // `a//b/` and `a/b` are one path; the child names its parent `a/b`.
    let tree = Scanner::build_tree(
        &"a".to_string(),
        vec![e("a", 0, true), e("a//b/", 0, true), e("a/b/c", 7, false)],
    );
    assert_eq!(tree.root.children.len(), 1);
    let b = &tree.root.children[0];
    assert_eq!(b.entry.path, "a//b/");
    assert_eq!(b.children.len(), 1);
    assert_eq!(b.children[0].entry.path, "a/b/c");
    assert_eq!(tree.total_size, 7);
}

#[test]
fn a_refused_report_stops_the_walk() {
    let mut c = EntryCollector::new();
    assert_eq!(c.walk_on(), WalkStep::Continue);
    c.record("/r".to_string(), 1, 1, 8, true);
    assert_eq!(c.after_report(true), WalkStep::Continue);
    assert!(!c.is_cancelled());
    assert_eq!(c.after_report(false), WalkStep::Quit);
    assert!(c.is_cancelled());
    assert_eq!(c.walk_on(), WalkStep::Quit);
    assert_eq!(c.scanned(), 1);
}
