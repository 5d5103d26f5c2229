use rdirstat::scanner::{ScanConfig, ScanProgress, ScanUpdate, Scanner};
use rdirstat::tree::{FileEntry, FileTree, TreeNode};
use rdirstat::ui::components::{
    breakdown_if_fits, build_file_table, build_size_breakdown_text, build_top_items_list,
    build_tree_table, build_treemap_visualization, collect_all_entries, find_largest_item,
    header_title, main_panel, no_data_message, progress_current_file, progress_headline,
    progress_stats, size_breakdown_content, status_text, tab_titles, treemap_content,
    treemap_if_fits, usage_summary_text, Panel,
};
use rdirstat::ui::tui::{App, ViewMode};

fn e(path: &str, size: u64, is_dir: bool) -> FileEntry {
    FileEntry::new(path.to_string(), size, is_dir)
}

fn sample() -> FileTree {
    Scanner::build_tree(
        &"/r".to_string(),
        vec![
            e("/r", 0, true),
            e("/r/a.txt", 512, false),
            e("/r/sub", 0, true),
            e("/r/sub/b.bin", 1536, false),
        ],
    )
}

fn browsing(tree: FileTree) -> App {
    let mut app = App::new("/r".to_string(), ScanConfig::default());
    assert!(app.update_progress(ScanUpdate::Complete(tree)));
    app
}

#[test]
fn entries_are_collected_parents_first() {
    let tree = sample();
    let items = collect_all_entries(&tree.root);
    let expected = vec![
        ("r".to_string(), 2048, true),
        ("a.txt".to_string(), 512, false),
        ("sub".to_string(), 1536, true),
        ("b.bin".to_string(), 1536, false),
    ];
    assert_eq!(items, expected);
}

#[test]
fn treemap_shows_shares_with_bars() {
    let tree = sample();
    let text = build_treemap_visualization(&tree.root);
    let expected = format!(
        "Size-based visualization:\n\n{}{}{}{}",
        format!("📁 {} {:3}% r\n", "█".repeat(18), 36),
        format!("📁 {} {:3}% sub\n", "█".repeat(13), 27),
        format!("📄 {} {:3}% b.bin\n", "█".repeat(13), 27),
        format!("📄 {} {:3}% a.txt\n", "█".repeat(4), 9),
    );
    assert_eq!(text, expected);
}

#[test]
fn treemap_of_empty_files() {
    let tree = Scanner::build_tree(&"/r".to_string(), vec![e("/r", 0, true), e("/r/x", 0, false)]);
    assert_eq!(build_treemap_visualization(&tree.root), "All files are empty");
    assert_eq!(build_size_breakdown_text(&tree.root), "All files are empty");
}

#[test]
fn treemap_shows_at_most_fifteen_items_with_one_bar_at_least() {
    let mut entries = vec![e("/r", 0, true)];
    for i in 0..20 {
        entries.push(e(&format!("/r/f{i}"), 1, false));
    }
    let tree = Scanner::build_tree(&"/r".to_string(), entries);
    let text = build_treemap_visualization(&tree.root);
    assert_eq!(text.lines().count(), 2 + 15);
    assert!(text.contains("📄 █   2% f0\n"));
}

#[test]
fn breakdown_groups_by_category() {
    let tree = sample();
    let text = build_size_breakdown_text(&tree.root);
    let expected = format!(
        "Size distribution:\n\n{}{}{}",
        format!("{:12} {:>6}% {}\n", "3.50 KiB", 63, "Directories"),
        format!("{:12} {:>6}% {}\n", "1.50 KiB", 27, "*.bin"),
        format!("{:12} {:>6}% {}\n", "512 B", 9, "*.txt"),
    );
    assert_eq!(text, expected);
}

#[test]
fn breakdown_names_files_without_extension() {
    let tree = Scanner::build_tree(&"/r".to_string(), vec![e("/r", 0, true), e("/r/Makefile", 10, false)]);
    let text = build_size_breakdown_text(&tree.root);
    assert!(text.contains("% No extension\n"));
}

#[test]
fn overflowing_sums_are_refused() {
    let tree = Scanner::build_tree(
        &"/r".to_string(),
        vec![e("/r", 0, true), e("/r/a", u64::MAX / 2, false), e("/r/b", u64::MAX / 2, false)],
    );
    assert!(treemap_if_fits(&tree.root).is_none());
    assert!(breakdown_if_fits(&tree.root).is_none());
    let small = sample();
    assert_eq!(
        treemap_if_fits(&small.root),
        Some(build_treemap_visualization(&small.root))
    );
    assert_eq!(
        breakdown_if_fits(&small.root),
        Some(build_size_breakdown_text(&small.root))
    );
}

#[test]
fn largest_item_is_the_last_of_the_largest() {
    let tree = sample();
    assert_eq!(find_largest_item(&tree.root), "r (2 KiB)");
    let flat = TreeNode::new(e("/x", 0, true));
    assert_eq!(find_largest_item(&flat), "x (0 B)");
    let tie = Scanner::build_tree(&"/t".to_string(), vec![e("/t", 0, true), e("/t/a", 0, false)]);
    assert_eq!(find_largest_item(&tie.root), "a (0 B)");
}

#[test]
fn usage_summary_reports_totals_and_average() {
    let app = browsing(sample());
    assert_eq!(
        usage_summary_text(&app),
        "Total Size: 2 KiB\nFiles: 2\nDirectories: 2\nLargest Item: r (2 KiB)\nAverage File Size: 1 KiB"
    );
    let empty = App::new("/r".to_string(), ScanConfig::default());
    assert_eq!(usage_summary_text(&empty), "No data available");
    assert_eq!(size_breakdown_content(&empty), "No data available");
    assert_eq!(treemap_content(&empty), "No data available for visualization");
}

#[test]
fn tables_list_the_current_children() {
    let app = browsing(sample());
    let children = app.get_current_children();
    let (header, rows) = build_tree_table(&children, 0);
    assert_eq!(header, vec!["", "", "Name", "Size"]);
    assert_eq!(
        rows,
        vec![
            vec!["▶", "📁", "sub/", "1.50 KiB"],
            vec!["", "📄", "a.txt", "512 B"],
        ]
    );
    let (header, rows) = build_file_table(&children, 1);
    assert_eq!(header, vec!["", "", "Name", "Size", "Type"]);
    assert_eq!(
        rows,
        vec![
            vec!["", "📁", "sub", "1.50 KiB", "DIR"],
            vec!["▶", "📄", "a.txt", "512 B", "FILE"],
        ]
    );
}

#[test]
fn top_items_list_is_sorted_and_aligned() {
    let app = browsing(sample());
    let children = app.get_current_children();
    let lines = build_top_items_list(&children);
    assert_eq!(
        lines,
        vec![
            format!("{} {:40} {:>12}", "📁 ", "sub", "1.50 KiB"),
            format!("{} {:40} {:>12}", "📄 ", "a.txt", "512 B"),
        ]
    );
    assert_eq!(build_top_items_list(&Vec::new()), vec!["No items found"]);
}

#[test]
fn header_status_tabs_and_panels() {
    let mut app = browsing(sample());
    assert_eq!(header_title(&app), "dirstat - Modern Disk Usage Analyzer [/r]");
    assert_eq!(
        status_text(&app),
        "Total: 2 KiB in 2 files, 2 dirs | Selected: sub (1.50 KiB) | ↑↓:Navigate Enter:Open Backspace:Up q:Quit"
    );
    assert_eq!(
        tab_titles(),
        vec!["Tree View (1)", "Chart View (2)", "Details (3)", "Treemap (4)"]
    );
    assert_eq!(main_panel(&app), Panel::Tree);
    app.view_mode = ViewMode::Treemap;
    assert_eq!(main_panel(&app), Panel::Treemap);
    app.is_scanning = true;
    assert_eq!(header_title(&app), "dirstat - Scanning [/r]");
    assert_eq!(status_text(&app), "Scanning... (Press 'q' to quit)");

    let idle = App::new("/r".to_string(), ScanConfig::default());
    assert_eq!(main_panel(&idle), Panel::NoData);
    assert_eq!(
        status_text(&idle),
        "No data | ↑↓:Navigate Enter:Open Backspace:Up q:Quit"
    );
    assert_eq!(no_data_message(), "No scan data available. Run a scan first.");
}

#[test]
fn progress_texts() {
    let p = ScanProgress {
        files_scanned: 12,
        total_size: 2048,
        current_path: Some("/r/x".to_string()),
        elapsed_ms: 1500,
    };
    assert_eq!(progress_headline(&p), "Scanning... 12 files, 2 KiB");
    assert_eq!(progress_current_file(&p), "/r/x");
    assert_eq!(
        progress_stats(&p, "1.50"),
        "Total Size: 2 KiB\nElapsed Time: 1.50s\nFiles Scanned: 12"
    );
    let q = ScanProgress { current_path: None, ..p.clone() };
    assert_eq!(progress_current_file(&q), "Initializing...");
}
