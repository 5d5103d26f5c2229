use rdirstat::tree::{FileEntry, FileTree, TreeNode};

fn file(path: &str, size: u64) -> TreeNode {
    TreeNode::new(FileEntry::new(path.to_string(), size, false))
}

fn dir(path: &str, size: u64) -> TreeNode {
    TreeNode::new(FileEntry::new(path.to_string(), size, true))
}

fn child_paths(node: &TreeNode) -> Vec<String> {
    node.children.iter().map(|c| c.entry.path.clone()).collect()
}

#[test]
fn new_entry_counts_one_file_or_one_directory() {
    let f = FileEntry::new("/a/b.txt".to_string(), 42, false);
    assert_eq!(f.path, "/a/b.txt");
    assert_eq!(f.size, 42);
    assert!(!f.is_directory);
    assert_eq!((f.inode, f.device), (0, 0));
    assert_eq!((f.file_count, f.dir_count), (1, 0));

    let d = FileEntry::new("/a".to_string(), 0, true);
    assert_eq!((d.file_count, d.dir_count), (0, 1));
}

#[test]
fn cloned_entry_is_equal_field_by_field() {
    let e = FileEntry {
        path: "/x".to_string(),
        size: 7,
        is_directory: false,
        inode: 11,
        device: 3,
        file_count: 1,
        dir_count: 0,
    };
    let c = e.clone();
    assert_eq!(c.path, e.path);
    assert_eq!((c.size, c.inode, c.device), (7, 11, 3));
}

#[test]
fn add_child_appends_in_order() {
    let mut root = dir("/r", 0);
    root.add_child(file("/r/a", 1));
    root.add_child(file("/r/b", 2));
    assert_eq!(child_paths(&root), vec!["/r/a", "/r/b"]);
    assert_eq!(root.entry.path, "/r");
}

#[test]
fn sort_children_orders_by_decreasing_size_and_keeps_ties() {
    let mut root = dir("/r", 0);
    root.add_child(file("/r/small", 1));
    root.add_child(file("/r/tie1", 5));
    root.add_child(file("/r/big", 9));
    root.add_child(file("/r/tie2", 5));
    let mut sub = dir("/r/sub", 3);
    sub.add_child(file("/r/sub/x", 1));
    sub.add_child(file("/r/sub/y", 2));
    root.add_child(sub);
    root.sort_children_by_size();
    assert_eq!(
        child_paths(&root),
        vec!["/r/big", "/r/tie1", "/r/tie2", "/r/sub", "/r/small"]
    );
    // the levels below are sorted too
    assert_eq!(child_paths(&root.children[3]), vec!["/r/sub/y", "/r/sub/x"]);
}

#[test]
fn file_tree_new_is_an_empty_root_directory() {
    let t = FileTree::new("/data".to_string());
    assert_eq!(t.root.entry.path, "/data");
    assert!(t.root.entry.is_directory);
    assert_eq!(t.root.entry.size, 0);
    assert!(t.root.children.is_empty());
    assert_eq!((t.total_size, t.total_files, t.total_dirs), (0, 0, 0));
}

#[test]
fn sort_by_size_keeps_totals_and_sums() {
    let mut t = FileTree::new("/r".to_string());
    t.root.add_child(file("/r/a", 1));
    t.root.add_child(file("/r/b", 3));
    t.total_size = 4;
    t.total_files = 2;
    t.total_dirs = 1;
    let before: u64 = t.root.children.iter().map(|c| c.entry.size).sum();
    t.sort_by_size();
    let after: u64 = t.root.children.iter().map(|c| c.entry.size).sum();
    assert_eq!(before, after);
    assert_eq!(child_paths(&t.root), vec!["/r/b", "/r/a"]);
    assert_eq!((t.total_size, t.total_files, t.total_dirs), (4, 2, 1));
}

#[test]
fn sorting_a_sorted_tree_changes_nothing() {
    let mut root = dir("/r", 0);
    root.add_child(file("/r/a", 4));
    root.add_child(file("/r/b", 7));
    root.add_child(file("/r/c", 4));
    let mut sub = dir("/r/sub", 2);
    sub.add_child(file("/r/sub/x", 1));
    sub.add_child(file("/r/sub/y", 3));
    root.add_child(sub);
    root.sort_children_by_size();
    let once = child_paths(&root);
    let once_sub = child_paths(&root.children[3]);
    root.sort_children_by_size();
    assert_eq!(child_paths(&root), once);
    assert_eq!(child_paths(&root.children[3]), once_sub);
    assert_eq!(once, vec!["/r/b", "/r/a", "/r/c", "/r/sub"]);
}
