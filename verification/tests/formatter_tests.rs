use rdirstat::output::formatters::{
    color_enabled, percent, ColorMode, JsonFormatter, OutputFormatter, TreeFormatter,
};
use rdirstat::scanner::Scanner;
use rdirstat::tree::{FileEntry, FileTree};

fn e(path: &str, size: u64, is_dir: bool) -> FileEntry {
    FileEntry::new(path.to_string(), size, is_dir)
}

fn sample() -> FileTree {
    let mut tree = Scanner::build_tree(
        &"/r".to_string(),
        vec![
            e("/r", 0, true),
            e("/r/a.txt", 512, false),
            e("/r/sub", 0, true),
            e("/r/sub/b.bin", 1536, false),
        ],
    );
    tree.sort_by_size();
    tree
}

#[test]
fn json_output_has_the_three_totals() {
    let tree = sample();
    let out = JsonFormatter.format(&tree);
    assert_eq!(
        out,
        "{\n  \"total_size\": 2048,\n  \"total_files\": 2,\n  \"total_dirs\": 2\n}"
    );
}

#[test]
fn tree_output_lists_nodes_with_size_share_and_name() {
    let tree = sample();
    let out = TreeFormatter::new(false).format(&tree);
    let expected = [
        "Path: /r\n",
        "Used: 2 KiB · 2 files · 2 dirs\n\n",
        "SIZE       %       NAME\n",
        "  1.50 KiB  75%  sub/\n",
        "    1.50 KiB 100%  b.bin\n",
        "     512 B  25%  a.txt\n",
    ]
    .join("");
    assert_eq!(out, expected);
}

#[test]
fn tree_output_colors_directories() {
    let tree = sample();
    let out = TreeFormatter::new(true).format(&tree);
    assert!(out.contains("  75%  \u{1b}[36msub/\u{1b}[0m\n"));
    assert!(out.contains("  25%  a.txt\n"));
}

#[test]
fn tree_output_stops_at_the_depth_limit() {
    let tree = sample();
    let out = TreeFormatter::with_max_depth(false, Some(1)).format(&tree);
    assert!(out.contains("sub/"));
    assert!(!out.contains("b.bin"));
    let none = TreeFormatter::with_max_depth(false, Some(0)).format(&tree);
    assert!(none.ends_with("SIZE       %       NAME\n"));
}

#[test]
fn tree_output_indents_deeper_levels() {
    let tree = Scanner::build_tree(
        &"/r".to_string(),
        vec![
            e("/r", 0, true),
            e("/r/d", 0, true),
            e("/r/d/e", 0, true),
            e("/r/d/e/f", 10, false),
        ],
    );
    let out = TreeFormatter::new(false).format(&tree);
    assert!(out.contains("\n      10 B 100%  d/\n"));
    assert!(out.contains("\n        10 B 100%  e/\n"));
    assert!(out.contains("\n          10 B 100%  f\n"));
}

#[test]
fn percent_is_zero_for_an_empty_parent_and_saturates() {
    assert_eq!(percent(5, 0), 0);
    assert_eq!(percent(1, 3), 33);
    assert_eq!(percent(u64::MAX, u64::MAX), 1);
}

#[test]
fn json_output_of_fixed_totals() {
    let mut tree = FileTree::new("/r".to_string());
    tree.total_size = 1;
    tree.total_files = 2;
    tree.total_dirs = 3;
    assert_eq!(
        JsonFormatter.format(&tree),
        "{\n  \"total_size\": 1,\n  \"total_files\": 2,\n  \"total_dirs\": 3\n}"
    );
}

#[test]
fn color_follows_the_mode_and_the_terminal() {
    assert!(color_enabled(ColorMode::Always, false, true));
    assert!(!color_enabled(ColorMode::Never, true, false));
    assert!(color_enabled(ColorMode::Auto, true, false));
    assert!(!color_enabled(ColorMode::Auto, true, true));
    assert!(!color_enabled(ColorMode::Auto, false, false));
}
