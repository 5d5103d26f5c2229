use rdirstat::scanner::{ScanConfig, ScanError, ScanProgress, ScanUpdate, Scanner};
use rdirstat::tree::{FileEntry, FileTree};
use rdirstat::ui::tui::{dispatch_key, App, Key, KeyDispatch, ViewMode};

fn e(path: &str, size: u64, is_dir: bool) -> FileEntry {
    FileEntry::new(path.to_string(), size, is_dir)
}

fn sample() -> FileTree {
    Scanner::build_tree(
        &"/r".to_string(),
        vec![
            e("/r", 0, true),
            e("/r/a.txt", 512, false),
            e("/r/sub", 0, true),
            e("/r/sub/b.bin", 1536, false),
            e("/r/Zeta", 0, true),
        ],
    )
}

fn browsing(tree: FileTree) -> App {
    let mut app = App::new("/r".to_string(), ScanConfig::default());
    assert!(app.update_progress(ScanUpdate::Complete(tree)));
    app
}

fn names(app: &App) -> Vec<String> {
    app.get_current_children()
        .iter()
        .map(|c| c.entry.path.clone())
        .collect()
}

#[test]
fn new_app_starts_idle_in_tree_view() {
    let app = App::new("/r".to_string(), ScanConfig::default());
    assert!(app.tree.is_none());
    assert_eq!(app.current_path, "/r");
    assert_eq!(app.view_mode, ViewMode::Tree);
    assert_eq!((app.selected_index, app.scroll_offset), (0, 0));
    assert!(!app.is_scanning && !app.filter_mode && !app.sort_by_name);
    assert!(app.current_node.is_none() && app.node_stack.is_empty());
    assert!(app.get_current_children().is_empty());
    assert!(app.get_selected_node().is_none());
}

#[test]
fn scan_lifecycle() {
    let mut app = App::new("/r".to_string(), ScanConfig::default());
    app.start_scan();
    assert!(app.is_scanning);
    let p = app.scan_progress.clone().unwrap();
    assert_eq!((p.files_scanned, p.total_size), (0, 0));
    assert_eq!(p.current_path.as_deref(), Some("/r"));
    assert_eq!(p.elapsed_ms, 0);
    app.scan_started();
    assert!(app.tree.is_none() && app.is_scanning);
    let progress = ScanProgress {
        files_scanned: 5,
        total_size: 9,
        current_path: None,
        elapsed_ms: 1000,
    };
    assert!(!app.update_progress(ScanUpdate::Progress(progress)));
    assert_eq!(app.scan_progress.as_ref().unwrap().files_scanned, 5);
    assert!(app.update_progress(ScanUpdate::Complete(sample())));
    assert!(!app.is_scanning);
    assert_eq!(app.current_node, Some(vec![]));

    let mut failed = App::new("/gone".to_string(), ScanConfig::default());
    failed.start_scan();
    failed.scan_failed(&ScanError::PathNotFound("/gone".to_string()));
    assert!(!failed.is_scanning);
    assert_eq!(failed.error_message.as_deref(), Some("Scan error: Path not found: /gone"));
}

#[test]
fn children_are_listed_by_size_then_by_name() {
    let mut app = browsing(sample());
    assert_eq!(names(&app), vec!["/r/sub", "/r/a.txt", "/r/Zeta"]);
    assert_eq!(app.on_key(Key::Char('s')), None);
    assert!(app.sort_by_name);
    assert_eq!(names(&app), vec!["/r/a.txt", "/r/sub", "/r/Zeta"]);
}

#[test]
fn arrows_move_within_the_list() {
    let mut app = browsing(sample());
    app.on_key(Key::Down);
    app.on_key(Key::Down);
    assert_eq!(app.selected_index, 2);
    app.on_key(Key::Down);
    assert_eq!(app.selected_index, 2);
    app.on_key(Key::Up);
    assert_eq!(app.selected_index, 1);
    assert_eq!(app.get_selected_node().unwrap().entry.path, "/r/a.txt");
    app.on_key(Key::Char('2'));
    assert_eq!(app.view_mode, ViewMode::Chart);
    assert_eq!(app.selected_index, 0);
    app.on_key(Key::Down);
    assert_eq!(app.selected_index, 0);
}

#[test]
fn pages_move_by_twenty_rows() {
    let mut entries = vec![e("/r", 0, true)];
    for i in 0..45 {
        entries.push(e(&format!("/r/f{i:02}"), 100 - i, false));
    }
    let mut app = browsing(Scanner::build_tree(&"/r".to_string(), entries));
    app.on_key(Key::PageDown);
    assert_eq!((app.selected_index, app.scroll_offset), (20, 20));
    app.on_key(Key::PageDown);
    assert_eq!((app.selected_index, app.scroll_offset), (40, 25));
    app.on_key(Key::PageDown);
    assert_eq!((app.selected_index, app.scroll_offset), (44, 25));
    app.on_key(Key::PageUp);
    assert_eq!((app.selected_index, app.scroll_offset), (24, 5));
    app.on_key(Key::PageUp);
    app.on_key(Key::PageUp);
    assert_eq!((app.selected_index, app.scroll_offset), (0, 0));
    for _ in 0..20 {
        app.on_key(Key::Down);
    }
    assert_eq!((app.selected_index, app.scroll_offset), (20, 1));
    app.scroll_offset = 10;
    app.selected_index = 10;
    app.on_key(Key::Up);
    assert_eq!((app.selected_index, app.scroll_offset), (9, 9));
}

#[test]
fn enter_opens_a_directory_and_backspace_returns() {
    let mut app = browsing(sample());
    assert_eq!(app.on_key(Key::Enter), None);
    assert_eq!(app.current_path, "/r/sub");
    assert_eq!(app.current_node, Some(vec![1]));
    assert_eq!(app.node_stack, vec![Vec::<usize>::new()]);
    assert_eq!(names(&app), vec!["/r/sub/b.bin"]);
    assert_eq!(app.on_key(Key::Backspace), None);
    assert_eq!(app.current_path, "/r");
    assert_eq!(app.current_node, Some(vec![]));
    assert!(app.node_stack.is_empty());
    assert_eq!(names(&app), vec!["/r/sub", "/r/a.txt", "/r/Zeta"]);
}

#[test]
fn enter_on_a_file_reports_it() {
    let mut app = browsing(sample());
    app.on_key(Key::Down);
    assert_eq!(
        app.on_key(Key::Enter),
        Some("File selected: /r/a.txt (512 B)".to_string())
    );
    assert_eq!(app.current_path, "/r");
    app.on_key(Key::Char('3'));
    assert_eq!(app.on_key(Key::Enter), None);
    assert_eq!(app.current_path, "/r");
}

#[test]
fn filter_narrows_the_list() {
    let mut app = browsing(sample());
    app.on_key(Key::Char('/'));
    assert!(app.filter_mode);
    app.on_key(Key::Char('T'));
    app.on_key(Key::Char('X'));
    assert_eq!(app.filter_query, "TX");
    assert_eq!(names(&app), vec!["/r/a.txt"]);
    app.on_key(Key::Backspace);
    assert_eq!(app.filter_query, "T");
    assert_eq!(names(&app), vec!["/r/a.txt", "/r/Zeta"]);
    app.on_key(Key::Char('1'));
    assert_eq!(app.filter_query, "T1");
    assert_eq!(app.view_mode, ViewMode::Tree);
    app.on_key(Key::Esc);
    assert!(!app.filter_mode);
    app.on_key(Key::Char('/'));
    app.on_key(Key::Enter);
    assert!(!app.filter_mode);
}

#[test]
fn only_q_counts_while_scanning() {
    let mut app = browsing(sample());
    app.is_scanning = true;
    app.on_key(Key::Down);
    app.on_key(Key::Char('2'));
    assert_eq!(app.selected_index, 0);
    assert_eq!(app.view_mode, ViewMode::Tree);
    app.on_key(Key::Char('q'));
    assert!(!app.is_scanning);
}

#[test]
fn overflowing_keys_are_detected() {
    let mut app = browsing(sample());
    assert!(!app.key_would_overflow(Key::PageDown));
    app.selected_index = usize::MAX - 3;
    assert!(app.key_would_overflow(Key::PageDown));
    assert!(!app.key_would_overflow(Key::Up));
}

#[test]
fn loop_keys_quit_help_or_forward() {
    assert!(matches!(dispatch_key(Key::Char('q')), KeyDispatch::Quit));
    assert!(matches!(dispatch_key(Key::Char('?')), KeyDispatch::Help));
    assert!(matches!(dispatch_key(Key::Enter), KeyDispatch::Forward));
    assert_eq!(ViewMode::Treemap.index(), 3);
}

#[test]
fn handle_key_refuses_overflowing_keys() {
    let mut app = browsing(sample());
    app.selected_index = usize::MAX - 3;
    assert_eq!(app.handle_key(Key::PageDown), None);
    assert_eq!(app.selected_index, usize::MAX - 3);
    app.selected_index = 0;
    assert_eq!(app.handle_key(Key::Down), Some(None));
    assert_eq!(app.selected_index, 1);
}

#[test]
fn toggling_the_sort_twice_restores_the_list() {
    let mut app = browsing(sample());
    app.on_key(Key::Down);
    let before = names(&app);
    app.on_key(Key::Char('s'));
    assert!(app.sort_by_name);
    assert_ne!(names(&app), before);
    app.on_key(Key::Char('s'));
    assert!(!app.sort_by_name);
    assert_eq!(names(&app), before);
    assert_eq!((app.selected_index, app.scroll_offset), (0, 0));
}

#[test]
fn keys_keep_the_selection_in_the_page_and_the_list() {
    let mut entries = vec![e("/r", 0, true)];
    for i in 0..45u64 {
        entries.push(e(&format!("/r/f{i}"), i + 1, false));
    }
    let mut app = browsing(Scanner::build_tree(&"/r".to_string(), entries));
    let keys = [
        Key::PageDown, Key::PageDown, Key::PageDown, Key::Down, Key::Up, Key::PageUp,
        Key::Down, Key::Down, Key::PageUp, Key::PageUp, Key::Up, Key::Char('/'),
        Key::Char('f'), Key::Char('4'), Key::Esc, Key::PageDown, Key::Char('s'),
        Key::PageDown, Key::Down,
    ];
    for key in keys {
        app.on_key(key);
        let n = app.get_current_children().len();
        assert!(app.scroll_offset <= app.selected_index);
        assert!(app.selected_index < app.scroll_offset + 20);
        assert!(app.selected_index <= n.saturating_sub(1));
    }
    assert_eq!(app.get_current_children().len(), 6);
}
