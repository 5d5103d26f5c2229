//! The state of the interactive browser and how it answers scan updates
//! and keys. Drawing and the terminal are outside the library.
use vstd::prelude::*;
use crate::order::{KeyModel, SortKeys, is_stable_order, sort_positions, lemma_stable_order_unique};
use crate::paths::{file_name_of, path_file_name};
use crate::scanner::{ScanConfig, ScanError, ScanProgress, ScanUpdate};
use crate::text::{
    binary_size, chars_of, contains_chars, format_binary_size, lowercase, occurs_in, pop_char,
    push_char, push_str, to_lowercase,
};
use crate::tree::{FileTree, TreeNode};

verus! {

/// The views of the browser, in tab order.
#[derive(Debug, Clone, Copy, PartialEq, Eq, Structural)]
pub enum ViewMode {
    Tree,
    Chart,
    Details,
    Treemap,
}

impl ViewMode {
    /// The position of the view's tab.
    pub fn index(self) -> (r: usize)
        ensures
            r == view_index(self),
    {
        match self {
            ViewMode::Tree => 0,
            ViewMode::Chart => 1,
            ViewMode::Details => 2,
            ViewMode::Treemap => 3,
        }
    }
}

pub open spec fn view_index(m: ViewMode) -> nat {
    match m {
        ViewMode::Tree => 0,
        ViewMode::Chart => 1,
        ViewMode::Details => 2,
        ViewMode::Treemap => 3,
    }
}

/// A key pressed in the browser.
#[derive(Debug, Clone, Copy, PartialEq, Eq, Structural)]
pub enum Key {
    Char(char),
    Enter,
    Esc,
    Backspace,
    Up,
    Down,
    PageUp,
    PageDown,
    Other,
}

/// The number of list rows that a page holds.
pub const VISIBLE_ITEMS: usize = 20;

/// The state of the browser.
#[derive(Debug)]
pub struct App {
    pub tree: Option<FileTree>,
    pub current_path: String,
    pub scan_progress: Option<ScanProgress>,
    pub view_mode: ViewMode,
    pub selected_index: usize,
    pub scroll_offset: usize,
    pub is_scanning: bool,
    pub error_message: Option<String>,
    /// The directory being browsed, as positions of children from the
    /// root; `None` browses the root.
    pub current_node: Option<Vec<usize>>,
    /// The directories to go back up to, the last one first.
    pub node_stack: Vec<Vec<usize>>,
    pub scan_config: ScanConfig,
    pub filter_query: String,
    pub filter_mode: bool,
    pub sort_by_name: bool,
}

/// The node reached from `t` by following the child positions of `p`.
pub open spec fn node_at(t: TreeNode, p: Seq<usize>) -> Option<TreeNode>
    decreases p.len(),
{
    if p.len() == 0 {
        Some(t)
    } else {
        match node_at(t, p.drop_last()) {
            Some(n) => if p.last() < n.children@.len() {
                Some(n.children@[p.last() as int])
            } else {
                None
            },
            None => None,
        }
    }
}

/// The directory whose children are listed.
pub open spec fn listed_node(app: App) -> Option<TreeNode> {
    match app.tree {
        Some(t) => match app.current_node {
            Some(p) => node_at(t.root, p@),
            None => Some(t.root),
        },
        None => None,
    }
}

/// The children of the listed directory.
pub open spec fn listed_children(app: App) -> Seq<TreeNode> {
    match listed_node(app) {
        Some(n) => n.children@,
        None => Seq::empty(),
    }
}

/// A child passes the filter: there is no filter, or the lowercase query
/// occurs in the child's lowercase file name.
pub open spec fn passes_filter(app: App, c: TreeNode) -> bool {
    app.filter_query@.len() == 0 || match file_name_of(c.entry.path@) {
        Some(n) => occurs_in(lowercase(app.filter_query@), lowercase(n)),
        None => false,
    }
}

/// The positions of the first `k` listed children that pass the filter.
pub open spec fn kept_upto(app: App, k: nat) -> Seq<usize>
    decreases k,
{
    if k == 0 || k > listed_children(app).len() {
        Seq::empty()
    } else {
        let prev = kept_upto(app, (k - 1) as nat);
        if passes_filter(app, listed_children(app)[k - 1]) {
            prev.push((k - 1) as usize)
        } else {
            prev
        }
    }
}

/// The positions of the listed children that pass the filter, in order.
pub open spec fn kept_positions(app: App) -> Seq<usize> {
    kept_upto(app, listed_children(app).len())
}

/// The key by which a child is sorted in name order: its lowercase file
/// name, or nothing.
pub open spec fn name_key(c: TreeNode) -> Seq<char> {
    match file_name_of(c.entry.path@) {
        Some(n) => lowercase(n),
        None => Seq::empty(),
    }
}

/// The sort keys of the kept children, in kept order.
pub open spec fn listing_keys(app: App) -> KeyModel {
    let cs = listed_children(app);
    let f = kept_positions(app);
    if app.sort_by_name {
        KeyModel::NameAsc(f.map_values(|i: usize| name_key(cs[i as int])))
    } else {
        KeyModel::SizeDesc(f.map_values(|i: usize| cs[i as int].entry.size))
    }
}

/// `r` lists the kept children, as positions among the listed children,
/// in the stable order of name (when sorting by name) or of decreasing
/// size.
pub open spec fn is_listing(app: App, r: Seq<usize>) -> bool {
    let f = kept_positions(app);
    exists|s: Seq<usize>|
        #[trigger] is_stable_order(listing_keys(app), s) && r.len() == s.len() && forall|k: int|
            0 <= k < r.len() ==> r[k] == f[s[k] as int]
}

/// The number of rows of the list.
pub open spec fn item_count(app: App) -> nat {
    kept_positions(app).len()
}

/// What a key asks of the browser in its current state.
pub enum Command {
    StopScan,
    Nothing,
    LeaveFilter,
    EraseFilter,
    TypeFilter(char),
    View(ViewMode),
    Next,
    Previous,
    PageDown,
    PageUp,
    Open,
    GoUp,
    Filter,
    ToggleSort,
}

/// While scanning only `q` counts, and stops the scan; while filtering,
/// keys edit the query; otherwise keys switch views, move, open, go up,
/// start filtering or toggle the sort.
pub open spec fn command_for(app: App, key: Key) -> Command {
    if app.is_scanning {
        if key == Key::Char('q') {
            Command::StopScan
        } else {
            Command::Nothing
        }
    } else if app.filter_mode {
        match key {
            Key::Esc => Command::LeaveFilter,
            Key::Enter => Command::LeaveFilter,
            Key::Backspace => Command::EraseFilter,
            Key::Char(c) => Command::TypeFilter(c),
            _ => Command::Nothing,
        }
    } else {
        match key {
            Key::Char(c) => if c == '1' {
                Command::View(ViewMode::Tree)
            } else if c == '2' {
                Command::View(ViewMode::Chart)
            } else if c == '3' {
                Command::View(ViewMode::Details)
            } else if c == '4' {
                Command::View(ViewMode::Treemap)
            } else if c == '/' {
                Command::Filter
            } else if c == 's' {
                Command::ToggleSort
            } else {
                Command::Nothing
            },
            Key::Down => Command::Next,
            Key::Up => Command::Previous,
            Key::PageDown => Command::PageDown,
            Key::PageUp => Command::PageUp,
            Key::Enter => Command::Open,
            Key::Backspace => Command::GoUp,
            _ => Command::Nothing,
        }
    }
}

/// The views in which the list moves.
pub open spec fn list_view(m: ViewMode) -> bool {
    m == ViewMode::Tree || m == ViewMode::Details
}

pub open spec fn sat_sub(a: nat, b: nat) -> nat {
    if a >= b {
        (a - b) as nat
    } else {
        0
    }
}

pub open spec fn min(a: nat, b: nat) -> nat {
    if a <= b {
        a
    } else {
        b
    }
}

/// Whether the command resets the selection and the scroll.
pub open spec fn resets_position(cmd: Command) -> bool {
    match cmd {
        Command::EraseFilter | Command::TypeFilter(_) | Command::View(_) | Command::Filter
        | Command::ToggleSort => true,
        _ => false,
    }
}

/// The selected row after `Next`: one further down where there is a row
/// below.
pub open spec fn next_selected(app: App) -> nat {
    if list_view(app.view_mode) && item_count(app) > 0 && app.selected_index + 1 < item_count(app) {
        (app.selected_index + 1) as nat
    } else {
        app.selected_index as nat
    }
}

/// The scroll after `Next`: one further where the selection leaves the page.
pub open spec fn next_scroll(app: App) -> nat {
    if list_view(app.view_mode) && item_count(app) > 0 && app.selected_index + 1 < item_count(app)
        && app.selected_index + 1 >= app.scroll_offset + VISIBLE_ITEMS {
        (app.scroll_offset + 1) as nat
    } else {
        app.scroll_offset as nat
    }
}

/// The selection after the command, except for `Open` and `GoUp`.
pub open spec fn selected_after(app: App, cmd: Command) -> nat {
    if resets_position(cmd) {
        0
    } else {
        match cmd {
            Command::Next => next_selected(app),
            Command::Previous => if list_view(app.view_mode) && app.selected_index > 0 {
                (app.selected_index - 1) as nat
            } else {
                app.selected_index as nat
            },
            Command::PageDown => if list_view(app.view_mode) {
                min((app.selected_index + VISIBLE_ITEMS) as nat, sat_sub(item_count(app), 1))
            } else {
                app.selected_index as nat
            },
            Command::PageUp => if list_view(app.view_mode) {
                sat_sub(app.selected_index as nat, VISIBLE_ITEMS as nat)
            } else {
                app.selected_index as nat
            },
            _ => app.selected_index as nat,
        }
    }
}

/// The scroll after the command, except for `Open` and `GoUp`.
pub open spec fn scroll_after(app: App, cmd: Command) -> nat {
    if resets_position(cmd) {
        0
    } else {
        match cmd {
            Command::Next => next_scroll(app),
            Command::Previous => if list_view(app.view_mode) && app.selected_index > 0
                && app.selected_index - 1 < app.scroll_offset {
                (app.selected_index - 1) as nat
            } else {
                app.scroll_offset as nat
            },
            Command::PageDown => if list_view(app.view_mode) {
                min(
                    (app.scroll_offset + VISIBLE_ITEMS) as nat,
                    sat_sub(item_count(app), VISIBLE_ITEMS as nat),
                )
            } else {
                app.scroll_offset as nat
            },
            Command::PageUp => if list_view(app.view_mode) {
                sat_sub(app.scroll_offset as nat, VISIBLE_ITEMS as nat)
            } else {
                app.scroll_offset as nat
            },
            _ => app.scroll_offset as nat,
        }
    }
}

/// The command would overflow the selection or the scroll.
pub open spec fn overflows(app: App, cmd: Command) -> bool {
    match cmd {
        Command::Next => list_view(app.view_mode) && item_count(app) > 0 && app.selected_index + 1
            < item_count(app) && app.scroll_offset + VISIBLE_ITEMS > usize::MAX,
        Command::PageDown => list_view(app.view_mode) && (app.selected_index + VISIBLE_ITEMS
            > usize::MAX || app.scroll_offset + VISIBLE_ITEMS > usize::MAX),
        _ => false,
    }
}

/// The query after the command.
pub open spec fn query_after(app: App, cmd: Command) -> Seq<char> {
    match cmd {
        Command::EraseFilter => if app.filter_query@.len() > 0 {
            app.filter_query@.drop_last()
        } else {
            app.filter_query@
        },
        Command::TypeFilter(c) => app.filter_query@.push(c),
        _ => app.filter_query@,
    }
}

/// The child that `Open` picks, given the listing: a position among the
/// listed children, where the selection is a row of the list.
pub open spec fn picked(app: App, listing: Seq<usize>) -> Option<TreeNode> {
    if app.selected_index < listing.len() {
        Some(listed_children(app)[listing[app.selected_index as int] as int])
    } else {
        None
    }
}

/// `Open` enters the picked child: it is a directory and the view is the
/// tree.
pub open spec fn enters(app: App, cmd: Command, listing: Seq<usize>) -> bool {
    &&& cmd == Command::Open
    &&& app.view_mode == ViewMode::Tree
    &&& picked(app, listing) matches Some(c)
    &&& c.entry.is_directory
}

/// `GoUp` returns to the last directory on the stack.
pub open spec fn goes_back(app: App, cmd: Command) -> bool {
    cmd == Command::GoUp && app.view_mode == ViewMode::Tree && app.node_stack@.len() > 0
}

/// How `new` relates to `old` after a key that gives `cmd`, where
/// `listing` is the list that `old` shows.
pub open spec fn key_applied(old: App, new: App, cmd: Command, listing: Seq<usize>, message: Option<String>) -> bool {
    &&& new.tree == old.tree
    &&& new.scan_progress == old.scan_progress
    &&& new.error_message == old.error_message
    &&& new.scan_config == old.scan_config
    &&& new.is_scanning == (old.is_scanning && cmd != Command::StopScan)
    &&& new.filter_mode == match cmd {
        Command::LeaveFilter => false,
        Command::Filter => true,
        _ => old.filter_mode,
    }
    &&& new.sort_by_name == (if cmd == Command::ToggleSort { !old.sort_by_name } else { old.sort_by_name })
    &&& new.view_mode == match cmd {
        Command::View(m) => m,
        _ => old.view_mode,
    }
    &&& new.filter_query@ == query_after(old, cmd)
    &&& if enters(old, cmd, listing) {
        let c = picked(old, listing)->0;
        let pos = listing[old.selected_index as int];
        &&& new.selected_index == 0
        &&& new.scroll_offset == 0
        &&& new.current_path@ == c.entry.path@
        &&& new.current_node matches Some(p) && p@ == match old.current_node {
            Some(q) => q@.push(pos),
            None => seq![pos],
        }
        &&& new.node_stack@ == match old.current_node {
            Some(q) => old.node_stack@.push(q),
            None => old.node_stack@,
        }
        &&& message is None
    } else if goes_back(old, cmd) {
        let top = old.node_stack@.last();
        &&& new.selected_index == 0
        &&& new.scroll_offset == 0
        &&& new.current_node == Some(top)
        &&& new.node_stack@ == old.node_stack@.drop_last()
        &&& new.current_path@ == match listed_node(new) {
            Some(n) => n.entry.path@,
            None => old.current_path@,
        }
        &&& message is None
    } else {
        &&& new.selected_index == selected_after(old, cmd)
        &&& new.scroll_offset == scroll_after(old, cmd)
        &&& new.current_node == old.current_node
        &&& new.node_stack == old.node_stack
        &&& new.current_path == old.current_path
        &&& if cmd == Command::Open && old.view_mode == ViewMode::Tree && picked(old, listing) is Some {
            let c = picked(old, listing)->0;
            message matches Some(m) && m@ == "File selected: "@ + c.entry.path@ + " ("@
                + binary_size(c.entry.size) + ")"@
        } else {
            message is None
        }
    }
}

/// What a key does in the main loop: `q` quits, `?` shows the help, and
/// every other key goes to the browser.
pub enum KeyDispatch {
    Quit,
    Help,
    Forward,
}

pub fn dispatch_key(key: Key) -> (r: KeyDispatch)
    ensures
        key == Key::Char('q') ==> r == KeyDispatch::Quit,
        key == Key::Char('?') ==> r == KeyDispatch::Help,
        key != Key::Char('q') && key != Key::Char('?') ==> r == KeyDispatch::Forward,
{
    match key {
        Key::Char(c) => if c == 'q' {
            KeyDispatch::Quit
        } else if c == '?' {
            KeyDispatch::Help
        } else {
            KeyDispatch::Forward
        },
        _ => KeyDispatch::Forward,
    }
}

/// The node reached by following the child positions of `p`.
pub fn find_node<'a>(root: &'a TreeNode, p: &Vec<usize>) -> (r: Option<&'a TreeNode>)
    ensures
        r matches Some(n) ==> node_at(*root, p@) == Some(*n),
        r is None ==> node_at(*root, p@) is None,
{
    let mut cur: &TreeNode = root;
    let mut k: usize = 0;
    while k < p.len()
        invariant
            k <= p@.len(),
            node_at(*root, p@.take(k as int)) == Some(*cur),
        decreases p@.len() - k,
    {
        assert(p@.take(k + 1).drop_last() =~= p@.take(k as int));
        let pos = p[k];
        if pos < cur.children.len() {
            cur = &cur.children[pos];
            k = k + 1;
        } else {
            proof {
                lemma_node_at_dead(*root, p@, k as nat);
            }
            return None;
        }
    }
    assert(p@.take(p@.len() as int) =~= p@);
    Some(cur)
}

/// Once a prefix leads nowhere, so does the whole path.
proof fn lemma_node_at_dead(t: TreeNode, p: Seq<usize>, k: nat)
    requires
        k < p.len(),
        node_at(t, p.take(k as int)) matches Some(n) && p[k as int] >= n.children@.len(),
    ensures
        node_at(t, p) is None,
    decreases p.len() - k,
{
    if k + 1 == p.len() {
        assert(p.drop_last() =~= p.take(k as int));
    } else {
        assert(p.take((k + 1) as int).drop_last() =~= p.take(k as int));
        lemma_node_at_none_extends(t, p, (k + 1) as nat);
    }
}

proof fn lemma_node_at_none_extends(t: TreeNode, p: Seq<usize>, k: nat)
    requires
        k <= p.len(),
        node_at(t, p.take(k as int)) is None,
    ensures
        node_at(t, p) is None,
    decreases p.len() - k,
{
    if k < p.len() {
        assert(p.take((k + 1) as int).drop_last() =~= p.take(k as int));
        lemma_node_at_none_extends(t, p, (k + 1) as nat);
    } else {
        assert(p.take(k as int) =~= p);
    }
}

/// The parts of the state that scanning leaves alone: the view, the
/// position in the list, the stack of directories, the configuration,
/// the filter and the sort.
pub open spec fn browsing_kept(a: App, b: App) -> bool {
    &&& b.current_path == a.current_path
    &&& b.view_mode == a.view_mode
    &&& b.selected_index == a.selected_index
    &&& b.scroll_offset == a.scroll_offset
    &&& b.node_stack == a.node_stack
    &&& b.scan_config == a.scan_config
    &&& b.filter_query == a.filter_query
    &&& b.filter_mode == a.filter_mode
    &&& b.sort_by_name == a.sort_by_name
}

impl App {
    pub fn new(path: String, config: ScanConfig) -> (r: Self)
        ensures
            r.tree is None,
            r.current_path == path,
            r.scan_progress is None,
            r.view_mode == ViewMode::Tree,
            r.selected_index == 0,
            r.scroll_offset == 0,
            !r.is_scanning,
            r.error_message is None,
            r.current_node is None,
            r.node_stack@.len() == 0,
            r.scan_config == config,
            r.filter_query@.len() == 0,
            !r.filter_mode,
            !r.sort_by_name,
            window_ok(r),
    {
        App {
            tree: None,
            current_path: path,
            scan_progress: None,
            view_mode: ViewMode::Tree,
            selected_index: 0,
            scroll_offset: 0,
            is_scanning: false,
            error_message: None,
            current_node: None,
            node_stack: Vec::new(),
            scan_config: config,
            filter_query: String::new(),
            filter_mode: false,
            sort_by_name: false,
        }
    }

    /// Prepares a scan of the current path: scanning, no error, and
    /// progress at zero for the current path. The scan itself is started
    /// by the caller, which then reports its start or its failure.
    pub fn start_scan(&mut self)
        ensures
            final(self).is_scanning,
            final(self).error_message is None,
            final(self).scan_progress is Some,
            final(self).scan_progress->0.files_scanned == 0,
            final(self).scan_progress->0.total_size == 0,
            final(self).scan_progress->0.elapsed_ms == 0,
            final(self).scan_progress->0.current_path is Some,
            final(self).scan_progress->0.current_path->0@ == old(self).current_path@,
            final(self).tree == old(self).tree,
            final(self).current_node == old(self).current_node,
            browsing_kept(*old(self), *final(self)),
    {
        self.is_scanning = true;
        self.error_message = None;
        self.scan_progress = Some(
            ScanProgress {
                files_scanned: 0,
                total_size: 0,
                current_path: Some(self.current_path.clone()),
                elapsed_ms: 0,
            },
        );
    }

    /// The scan started: no tree until it completes.
    pub fn scan_started(&mut self)
        ensures
            final(self).tree is None,
            final(self).is_scanning,
            final(self).error_message == old(self).error_message,
            final(self).scan_progress == old(self).scan_progress,
            final(self).current_node == old(self).current_node,
            browsing_kept(*old(self), *final(self)),
    {
        self.tree = None;
        self.is_scanning = true;
    }

    /// The scan could not start: the error is shown and scanning stops.
    pub fn scan_failed(&mut self, error: &ScanError)
        ensures
            !final(self).is_scanning,
            final(self).error_message matches Some(m) && (error matches ScanError::PathNotFound(p)
                ==> m@ == "Scan error: "@ + ("Path not found: "@ + p@)),
            final(self).tree == old(self).tree,
            final(self).scan_progress == old(self).scan_progress,
            final(self).current_node == old(self).current_node,
            browsing_kept(*old(self), *final(self)),
    {
        let mut message = String::new();
        push_str(&mut message, "Scan error: ");
        let detail = error.message();
        push_str(&mut message, detail.as_str());
        self.error_message = Some(message);
        self.is_scanning = false;
    }

    /// Takes one update of the running scan. Progress replaces the shown
    /// progress; the completed tree ends the scan and is browsed from its
    /// root. Returns whether the scan is over, after which no more
    /// updates are taken.
    pub fn update_progress(&mut self, update: ScanUpdate) -> (done: bool)
        ensures
            update matches ScanUpdate::Progress(p) ==> !done && final(self).scan_progress == Some(p)
                && final(self).tree == old(self).tree && final(self).is_scanning == old(self).is_scanning
                && final(self).current_node == old(self).current_node,
            update matches ScanUpdate::Complete(t) ==> done && final(self).tree == Some(t)
                && !final(self).is_scanning && final(self).current_node is Some
                && final(self).current_node->0@.len() == 0
                && final(self).scan_progress == old(self).scan_progress,
            final(self).error_message == old(self).error_message,
            browsing_kept(*old(self), *final(self)),
    {
        match update {
            ScanUpdate::Progress(progress) => {
                self.scan_progress = Some(progress);
                false
            },
            ScanUpdate::Complete(tree) => {
                self.is_scanning = false;
                self.current_node = Some(Vec::new());
                self.tree = Some(tree);
                true
            },
        }
    }

    /// The directory whose children are listed.
    pub fn listed(&self) -> (r: Option<&TreeNode>)
        ensures
            r matches Some(n) ==> listed_node(*self) == Some(*n),
            r is None ==> listed_node(*self) is None,
    {
        match &self.tree {
            Some(t) => match &self.current_node {
                Some(p) => find_node(&t.root, p),
                None => Some(&t.root),
            },
            None => None,
        }
    }

    /// Whether a child passes the filter, given the lowercase query.
    fn passes(&self, query: &Vec<char>, c: &TreeNode) -> (r: bool)
        requires
            self.filter_query@.len() > 0 ==> query@ == lowercase(self.filter_query@),
        ensures
            r == passes_filter(*self, *c),
    {
        if self.filter_query.as_str().is_empty() {
            return true;
        }
        match path_file_name(c.entry.path.as_str()) {
            Some(name) => {
                let lower = to_lowercase(name.as_str());
                let lower_chars = chars_of(lower.as_str());
                contains_chars(&lower_chars, query)
            },
            None => false,
        }
    }

    /// The positions of the listed children that pass the filter.
    fn kept(&self) -> (r: Vec<usize>)
        ensures
            r@ == kept_positions(*self),
    {
        let mut r: Vec<usize> = Vec::new();
        match self.listed() {
            Some(node) => {
                let query_text = to_lowercase(self.filter_query.as_str());
                let query = chars_of(query_text.as_str());
                let n = node.children.len();
                let mut i: usize = 0;
                while i < n
                    invariant
                        listed_node(*self) == Some(*node),
                        n == node.children@.len(),
                        query@ == lowercase(self.filter_query@),
                        i <= n,
                        r@ == kept_upto(*self, i as nat),
                    decreases n - i,
                {
                    if self.passes(&query, &node.children[i]) {
                        r.push(i);
                    }
                    i = i + 1;
                }
            },
            None => {},
        }
        r
    }

    /// The rows of the list, as positions among the listed children.
    pub fn current_positions(&self) -> (r: Vec<usize>)
        ensures
            is_listing(*self, r@),
            r@.len() == item_count(*self),
    {
        let f = self.kept();
        let m = f.len();
        let ghost cs = listed_children(*self);
        let keys = match self.listed() {
            Some(node) => {
                assert(cs == node.children@);
                if self.sort_by_name {
                    let mut names: Vec<Vec<char>> = Vec::new();
                    let mut k: usize = 0;
                    while k < m
                        invariant
                            m == f@.len(),
                            f@ == kept_positions(*self),
                            cs == node.children@,
                            listed_node(*self) == Some(*node),
                            cs == listed_children(*self),
                            k <= m,
                            names@.len() == k,
                            forall|j: int| 0 <= j < k ==> (#[trigger] names@[j])@ == name_key(cs[f@[j] as int]),
                        decreases m - k,
                    {
                        proof { lemma_kept_in_range(*self, cs.len()); }
                        let c = &node.children[f[k]];
                        let key = match path_file_name(c.entry.path.as_str()) {
                            Some(name) => {
                                let lower = to_lowercase(name.as_str());
                                chars_of(lower.as_str())
                            },
                            None => Vec::new(),
                        };
                        names.push(key);
                        k = k + 1;
                    }
                    proof {
                        assert(names@.map_values(|n: Vec<char>| n@) =~= f@.map_values(|i: usize| name_key(cs[i as int])));
                        assert(SortKeys::NameAsc(names)@ == listing_keys(*self));
                    }
                    SortKeys::NameAsc(names)
                } else {
                    let mut sizes: Vec<u64> = Vec::new();
                    let mut k: usize = 0;
                    while k < m
                        invariant
                            m == f@.len(),
                            f@ == kept_positions(*self),
                            cs == node.children@,
                            listed_node(*self) == Some(*node),
                            cs == listed_children(*self),
                            k <= m,
                            sizes@.len() == k,
                            forall|j: int| 0 <= j < k ==> sizes@[j] == cs[f@[j] as int].entry.size,
                        decreases m - k,
                    {
                        proof { lemma_kept_in_range(*self, cs.len()); }
                        sizes.push(node.children[f[k]].entry.size);
                        k = k + 1;
                    }
                    proof {
                        assert(sizes@ =~= f@.map_values(|i: usize| cs[i as int].entry.size));
                        assert(SortKeys::SizeDesc(sizes)@ == listing_keys(*self));
                    }
                    SortKeys::SizeDesc(sizes)
                }
            },
            None => {
                proof {
                    assert(kept_positions(*self) =~= Seq::<usize>::empty());
                }
                if self.sort_by_name {
                    let names: Vec<Vec<char>> = Vec::new();
                    proof {
                        assert(names@.map_values(|n: Vec<char>| n@) =~= f@.map_values(|i: usize| name_key(cs[i as int])));
                    }
                    SortKeys::NameAsc(names)
                } else {
                    let sizes: Vec<u64> = Vec::new();
                    proof {
                        assert(sizes@ =~= f@.map_values(|i: usize| cs[i as int].entry.size));
                    }
                    SortKeys::SizeDesc(sizes)
                }
            },
        };
        assert(keys@ == listing_keys(*self));
        let s = sort_positions(&keys);
        let mut r: Vec<usize> = Vec::new();
        let mut k: usize = 0;
        while k < m
            invariant
                m == f@.len(),
                s@.len() == m,
                forall|j: int| 0 <= j < m ==> s@[j] < m,
                k <= m,
                r@.len() == k,
                forall|j: int| 0 <= j < k ==> r@[j] == f@[s@[j] as int],
            decreases m - k,
        {
            r.push(f[s[k]]);
            k = k + 1;
        }
        proof {
            assert(is_stable_order(listing_keys(*self), s@));
        }
        r
    }

    /// The listed children in list order.
    pub fn get_current_children(&self) -> (r: Vec<&TreeNode>)
        ensures
            exists|p: Seq<usize>|
                is_listing(*self, p) && r@.len() == p.len() && forall|k: int|
                    0 <= k < p.len() ==> *(#[trigger] r@[k]) == listed_children(*self)[p[k] as int],
    {
        let positions = self.current_positions();
        let mut r: Vec<&TreeNode> = Vec::new();
        match self.listed() {
            Some(node) => {
                proof { lemma_listing_in_range(*self, positions@); }
                let n = positions.len();
                let mut k: usize = 0;
                while k < n
                    invariant
                        n == positions@.len(),
                        listed_node(*self) == Some(*node),
                        forall|j: int| 0 <= j < n ==> positions@[j] < node.children@.len(),
                        k <= n,
                        r@.len() == k,
                        forall|j: int| 0 <= j < k ==> *(#[trigger] r@[j]) == node.children@[positions@[j] as int],
                    decreases n - k,
                {
                    r.push(&node.children[positions[k]]);
                    k = k + 1;
                }
            },
            None => {
                proof { lemma_listing_in_range(*self, positions@); }
            },
        }
        r
    }

    /// The child on the selected row.
    pub fn get_selected_node(&self) -> (r: Option<&TreeNode>)
        ensures
            exists|p: Seq<usize>|
                is_listing(*self, p) && picked(*self, p) == match r {
                    Some(n) => Some(*n),
                    None => None,
                },
    {
        let positions = self.current_positions();
        proof { lemma_listing_in_range(*self, positions@); }
        if self.selected_index < positions.len() {
            match self.listed() {
                Some(node) => Some(&node.children[positions[self.selected_index]]),
                None => None,
            }
        } else {
            None
        }
    }
}

impl App {
    /// Answers a key. Returns the line to print where the key opens a file.
    pub fn on_key(&mut self, key: Key) -> (message: Option<String>)
        requires
            !overflows(*old(self), command_for(*old(self), key)),
        ensures
            command_for(*old(self), key) != Command::Open ==> key_applied(
                *old(self),
                *final(self),
                command_for(*old(self), key),
                Seq::empty(),
                message,
            ),
            command_for(*old(self), key) == Command::Open ==> exists|l: Seq<usize>|
                is_listing(*old(self), l) && key_applied(
                    *old(self),
                    *final(self),
                    Command::Open,
                    l,
                    message,
                ),
    {
        if self.is_scanning {
            if key == Key::Char('q') {
                self.is_scanning = false;
            }
            return None;
        }
        if self.filter_mode {
            match key {
                Key::Esc => {
                    self.filter_mode = false;
                },
                Key::Enter => {
                    self.filter_mode = false;
                },
                Key::Backspace => {
                    pop_char(&mut self.filter_query);
                    self.selected_index = 0;
                    self.scroll_offset = 0;
                },
                Key::Char(c) => {
                    push_char(&mut self.filter_query, c);
                    self.selected_index = 0;
                    self.scroll_offset = 0;
                },
                _ => {},
            }
            return None;
        }
        match key {
            Key::Char(c) => {
                if c == '1' {
                    self.view_mode = ViewMode::Tree;
                    self.selected_index = 0;
                    self.scroll_offset = 0;
                } else if c == '2' {
                    self.view_mode = ViewMode::Chart;
                    self.selected_index = 0;
                    self.scroll_offset = 0;
                } else if c == '3' {
                    self.view_mode = ViewMode::Details;
                    self.selected_index = 0;
                    self.scroll_offset = 0;
                } else if c == '4' {
                    self.view_mode = ViewMode::Treemap;
                    self.selected_index = 0;
                    self.scroll_offset = 0;
                } else if c == '/' {
                    self.filter_mode = true;
                    self.selected_index = 0;
                    self.scroll_offset = 0;
                } else if c == 's' {
                    self.sort_by_name = !self.sort_by_name;
                    self.selected_index = 0;
                    self.scroll_offset = 0;
                }
            },
            Key::Down => self.next(),
            Key::Up => self.previous(),
            Key::PageDown => self.page_down(),
            Key::PageUp => self.page_up(),
            Key::Enter => {
                return self.enter_selected();
            },
            Key::Backspace => self.go_up(),
            _ => {},
        }
        None
    }

    /// Answers a key unless it would overflow the selection or the scroll:
    /// then the state stays as it was and the answer is `None`.
    pub fn handle_key(&mut self, key: Key) -> (r: Option<Option<String>>)
        ensures
            overflows(*old(self), command_for(*old(self), key)) ==> r is None && *final(self)
                == *old(self),
            !overflows(*old(self), command_for(*old(self), key)) ==> r is Some,
            !overflows(*old(self), command_for(*old(self), key)) && command_for(*old(self), key)
                != Command::Open ==> key_applied(
                *old(self),
                *final(self),
                command_for(*old(self), key),
                Seq::empty(),
                r->0,
            ),
            !overflows(*old(self), command_for(*old(self), key)) && command_for(*old(self), key)
                == Command::Open ==> exists|l: Seq<usize>|
                is_listing(*old(self), l) && key_applied(
                    *old(self),
                    *final(self),
                    Command::Open,
                    l,
                    r->0,
                ),
    {
        if self.key_would_overflow(key) {
            return None;
        }
        Some(self.on_key(key))
    }

    /// Whether the key would overflow the selection or the scroll, which
    /// `on_key` does not accept.
    pub fn key_would_overflow(&self, key: Key) -> (r: bool)
        ensures
            r == overflows(*self, command_for(*self, key)),
    {
        if self.is_scanning || self.filter_mode || !self.in_list_view() {
            return false;
        }
        match key {
            Key::Down => {
                let item_count = self.kept().len();
                item_count > 0 && self.selected_index < item_count - 1 && self.scroll_offset
                    > usize::MAX - VISIBLE_ITEMS
            },
            Key::PageDown => self.selected_index > usize::MAX - VISIBLE_ITEMS || self.scroll_offset
                > usize::MAX - VISIBLE_ITEMS,
            _ => false,
        }
    }

    fn in_list_view(&self) -> (r: bool)
        ensures
            r == list_view(self.view_mode),
    {
        self.view_mode == ViewMode::Tree || self.view_mode == ViewMode::Details
    }

    fn next(&mut self)
        requires
            !old(self).is_scanning,
            !old(self).filter_mode,
            !overflows(*old(self), Command::Next),
        ensures
            key_applied(*old(self), *final(self), Command::Next, Seq::empty(), None),
    {
        if !self.in_list_view() {
            return;
        }
        let item_count = self.kept().len();
        if item_count == 0 {
            return;
        }
        if self.selected_index < item_count - 1 {
            self.selected_index = self.selected_index + 1;
            if self.selected_index >= self.scroll_offset + VISIBLE_ITEMS {
                self.scroll_offset = self.scroll_offset + 1;
            }
        }
    }

    fn previous(&mut self)
        requires
            !old(self).is_scanning,
            !old(self).filter_mode,
        ensures
            key_applied(*old(self), *final(self), Command::Previous, Seq::empty(), None),
    {
        if !self.in_list_view() {
            return;
        }
        if self.selected_index > 0 {
            self.selected_index = self.selected_index - 1;
            if self.selected_index < self.scroll_offset {
                self.scroll_offset = self.selected_index;
            }
        }
    }

    fn page_down(&mut self)
        requires
            !old(self).is_scanning,
            !old(self).filter_mode,
            !overflows(*old(self), Command::PageDown),
        ensures
            key_applied(*old(self), *final(self), Command::PageDown, Seq::empty(), None),
    {
        if !self.in_list_view() {
            return;
        }
        let item_count = self.kept().len();
        let last = if item_count >= 1 {
            item_count - 1
        } else {
            0
        };
        let top = if item_count >= VISIBLE_ITEMS {
            item_count - VISIBLE_ITEMS
        } else {
            0
        };
        let wanted = self.selected_index + VISIBLE_ITEMS;
        self.selected_index = if wanted <= last {
            wanted
        } else {
            last
        };
        let wanted_scroll = self.scroll_offset + VISIBLE_ITEMS;
        self.scroll_offset = if wanted_scroll <= top {
            wanted_scroll
        } else {
            top
        };
    }

    fn page_up(&mut self)
        requires
            !old(self).is_scanning,
            !old(self).filter_mode,
        ensures
            key_applied(*old(self), *final(self), Command::PageUp, Seq::empty(), None),
    {
        if !self.in_list_view() {
            return;
        }
        self.selected_index = if self.selected_index >= VISIBLE_ITEMS {
            self.selected_index - VISIBLE_ITEMS
        } else {
            0
        };
        self.scroll_offset = if self.scroll_offset >= VISIBLE_ITEMS {
            self.scroll_offset - VISIBLE_ITEMS
        } else {
            0
        };
    }

    fn enter_selected(&mut self) -> (message: Option<String>)
        requires
            !old(self).is_scanning,
            !old(self).filter_mode,
        ensures
            exists|l: Seq<usize>|
                is_listing(*old(self), l) && key_applied(
                    *old(self),
                    *final(self),
                    Command::Open,
                    l,
                    message,
                ),
    {
        let positions = self.current_positions();
        let ghost l = positions@;
        proof {
            lemma_listing_in_range(*self, l);
        }
        if self.view_mode != ViewMode::Tree || self.selected_index >= positions.len() {
            assert(key_applied(*old(self), *self, Command::Open, l, None));
            return None;
        }
        let pos = positions[self.selected_index];
        let (is_dir, child_path, child_size) = match self.listed() {
            Some(node) => {
                let c = &node.children[pos];
                (c.entry.is_directory, c.entry.path.clone(), c.entry.size)
            },
            None => {
                assert(false);
                (false, String::new(), 0)
            },
        };
        if is_dir {
            match self.current_node.take() {
                Some(q) => {
                    let mut np = q.clone();
                    np.push(pos);
                    self.node_stack.push(q);
                    self.current_node = Some(np);
                },
                None => {
                    let mut np: Vec<usize> = Vec::new();
                    np.push(pos);
                    self.current_node = Some(np);
                },
            }
            self.selected_index = 0;
            self.scroll_offset = 0;
            self.current_path = child_path;
            assert(key_applied(*old(self), *self, Command::Open, l, None));
            None
        } else {
            let mut m = String::new();
            push_str(&mut m, "File selected: ");
            push_str(&mut m, child_path.as_str());
            push_str(&mut m, " (");
            let size_text = format_binary_size(child_size);
            push_str(&mut m, size_text.as_str());
            push_str(&mut m, ")");
            assert(key_applied(*old(self), *self, Command::Open, l, Some(m)));
            Some(m)
        }
    }

    fn go_up(&mut self)
        requires
            !old(self).is_scanning,
            !old(self).filter_mode,
        ensures
            key_applied(*old(self), *final(self), Command::GoUp, Seq::empty(), None),
    {
        if self.view_mode != ViewMode::Tree {
            return;
        }
        if self.node_stack.len() == 0 {
            return;
        }
        match self.node_stack.pop() {
            Some(p) => {
                self.current_node = Some(p);
                let found = match self.listed() {
                    Some(n) => Some(n.entry.path.clone()),
                    None => None,
                };
                match found {
                    Some(np) => {
                        self.current_path = np;
                    },
                    None => {},
                }
                self.selected_index = 0;
                self.scroll_offset = 0;
            },
            None => {},
        }
    }
}

proof fn lemma_kept_upto_in_range(app: App, k: nat)
    requires
        k <= listed_children(app).len(),
    ensures
        forall|j: int| 0 <= j < kept_upto(app, k).len() ==> (#[trigger] kept_upto(app, k)[j]) < k,
    decreases k,
{
    if k > 0 {
        lemma_kept_upto_in_range(app, (k - 1) as nat);
        let prev = kept_upto(app, (k - 1) as nat);
        assert forall|j: int| 0 <= j < kept_upto(app, k).len() implies (#[trigger] kept_upto(app, k)[j]) < k by {
            if j < prev.len() {
                assert(kept_upto(app, k)[j] == prev[j]);
            }
        }
    }
}

proof fn lemma_kept_in_range(app: App, n: nat)
    requires
        n == listed_children(app).len(),
    ensures
        forall|j: int| 0 <= j < kept_positions(app).len() ==> (#[trigger] kept_positions(app)[j]) < n,
{
    lemma_kept_upto_in_range(app, n);
}

proof fn lemma_listing_in_range(app: App, r: Seq<usize>)
    requires
        is_listing(app, r),
    ensures
        forall|j: int| 0 <= j < r.len() ==> (#[trigger] r[j]) < listed_children(app).len(),
        r.len() == item_count(app),
        listed_node(app) is None ==> r.len() == 0,
{
    let f = kept_positions(app);
    let s = choose|s: Seq<usize>|
        #[trigger] is_stable_order(listing_keys(app), s) && r.len() == s.len() && forall|k: int|
            0 <= k < r.len() ==> r[k] == f[s[k] as int];
    lemma_kept_in_range(app, listed_children(app).len());
    assert forall|j: int| 0 <= j < r.len() implies (#[trigger] r[j]) < listed_children(app).len() by {
        assert(r[j] == f[s[j] as int]);
    }
    if listed_node(app) is None {
        assert(kept_positions(app) =~= Seq::<usize>::empty());
    }
}

/// Backspace after Enter has opened a directory returns to the directory
/// that was browsed before, with the same stack and the path of that
/// directory.
pub proof fn lemma_up_undoes_enter(
    a: App,
    b: App,
    c: App,
    l: Seq<usize>,
    opened: Option<String>,
    left: Option<String>,
)
    requires
        command_for(a, Key::Enter) == Command::Open,
        enters(a, Command::Open, l),
        a.current_node is Some,
        key_applied(a, b, Command::Open, l, opened),
        key_applied(b, c, command_for(b, Key::Backspace), Seq::empty(), left),
    ensures
        command_for(b, Key::Backspace) == Command::GoUp,
        c.current_node == a.current_node,
        c.node_stack@ == a.node_stack@,
        c.tree == a.tree,
        listed_node(c) == listed_node(a),
        listed_node(a) matches Some(n) ==> c.current_path@ == n.entry.path@,
        c.selected_index == 0,
        c.scroll_offset == 0,
{
    assert(goes_back(b, Command::GoUp));
    assert(b.node_stack@.last() == a.current_node->0);
}

/// Moving through the list keeps the selection on a row of the list.
pub proof fn lemma_moves_stay_in_list(app: App, cmd: Command)
    requires
        cmd == Command::Next || cmd == Command::Previous || cmd == Command::PageDown || cmd
            == Command::PageUp,
        app.selected_index < item_count(app),
    ensures
        selected_after(app, cmd) < item_count(app),
{
}

/// Erasing right after typing a character gives back the query as it was.
pub proof fn lemma_erase_undoes_typing(
    a: App,
    b: App,
    c: App,
    ch: char,
    typed: Option<String>,
    erased: Option<String>,
)
    requires
        command_for(a, Key::Char(ch)) == Command::TypeFilter(ch),
        key_applied(a, b, Command::TypeFilter(ch), Seq::empty(), typed),
        key_applied(b, c, command_for(b, Key::Backspace), Seq::empty(), erased),
    ensures
        command_for(b, Key::Backspace) == Command::EraseFilter,
        c.filter_query@ == a.filter_query@,
        c.filter_mode,
{
    assert(b.filter_query@.drop_last() =~= a.filter_query@);
}

/// The list that the browser shows is determined by its state.
pub proof fn lemma_listing_unique(app: App, r1: Seq<usize>, r2: Seq<usize>)
    requires
        is_listing(app, r1),
        is_listing(app, r2),
    ensures
        r1 == r2,
{
    let f = kept_positions(app);
    let s1 = choose|s: Seq<usize>|
        #[trigger] is_stable_order(listing_keys(app), s) && r1.len() == s.len() && forall|k: int|
            0 <= k < r1.len() ==> r1[k] == f[s[k] as int];
    let s2 = choose|s: Seq<usize>|
        #[trigger] is_stable_order(listing_keys(app), s) && r2.len() == s.len() && forall|k: int|
            0 <= k < r2.len() ==> r2[k] == f[s[k] as int];
    lemma_stable_order_unique(listing_keys(app), s1, s2);
    assert(r1 =~= r2);
}

proof fn lemma_kept_upto_same(a: App, b: App, k: nat)
    requires
        a.tree == b.tree,
        a.current_node == b.current_node,
        a.filter_query@ == b.filter_query@,
    ensures
        kept_upto(a, k) == kept_upto(b, k),
    decreases k,
{
    assert(listed_children(a) == listed_children(b));
    if k > 0 && k <= listed_children(a).len() {
        lemma_kept_upto_same(a, b, (k - 1) as nat);
        assert(passes_filter(a, listed_children(a)[k - 1]) == passes_filter(b, listed_children(b)[k - 1]));
    }
}

/// The rows of the list depend on the tree, the browsed directory and the
/// query alone; their order depends on the sort as well.
proof fn lemma_listing_same(a: App, b: App)
    requires
        a.tree == b.tree,
        a.current_node == b.current_node,
        a.filter_query@ == b.filter_query@,
    ensures
        listed_children(a) == listed_children(b),
        kept_positions(a) == kept_positions(b),
        item_count(a) == item_count(b),
        a.sort_by_name == b.sort_by_name ==> listing_keys(a) == listing_keys(b),
        a.sort_by_name == b.sort_by_name ==> forall|l: Seq<usize>| is_listing(a, l) == is_listing(b, l),
{
    assert(listed_children(a) == listed_children(b));
    lemma_kept_upto_same(a, b, listed_children(a).len());
    if a.sort_by_name == b.sort_by_name {
        assert(listing_keys(a) == listing_keys(b));
    }
}

/// Pressing `s` twice, while neither scanning nor filtering, gives back the
/// sort and the list as they were, with the first row selected.
pub proof fn lemma_toggle_sort_twice(
    a: App,
    b: App,
    c: App,
    first: Option<String>,
    second: Option<String>,
)
    requires
        !a.is_scanning,
        !a.filter_mode,
        key_applied(a, b, command_for(a, Key::Char('s')), Seq::empty(), first),
        key_applied(b, c, command_for(b, Key::Char('s')), Seq::empty(), second),
    ensures
        command_for(a, Key::Char('s')) == Command::ToggleSort,
        command_for(b, Key::Char('s')) == Command::ToggleSort,
        c.sort_by_name == a.sort_by_name,
        c.selected_index == 0,
        c.scroll_offset == 0,
        c.tree == a.tree,
        c.current_node == a.current_node,
        c.filter_query@ == a.filter_query@,
        forall|l: Seq<usize>| is_listing(a, l) == is_listing(c, l),
{
    assert(command_for(a, Key::Char('s')) == Command::ToggleSort);
    assert(command_for(b, Key::Char('s')) == Command::ToggleSort);
    lemma_listing_same(a, c);
}

/// The selection is a row of the list, or the first row of an empty one,
/// and it lies in the page that starts at the scroll.
pub open spec fn window_ok(app: App) -> bool {
    &&& app.scroll_offset <= app.selected_index
    &&& app.selected_index < app.scroll_offset + VISIBLE_ITEMS
    &&& app.selected_index <= sat_sub(item_count(app), 1)
}

/// Every key keeps the selection in the list and in the page shown.
pub proof fn lemma_key_keeps_window(
    a: App,
    b: App,
    cmd: Command,
    listing: Seq<usize>,
    message: Option<String>,
)
    requires
        window_ok(a),
        key_applied(a, b, cmd, listing, message),
    ensures
        window_ok(b),
{
    if !enters(a, cmd, listing) && !goes_back(a, cmd) && !resets_position(cmd) {
        assert(b.filter_query@ == a.filter_query@);
        lemma_listing_same(a, b);
    }
}


/// When neither scanning nor filtering, the digit keys `1` to `4` open the
/// views in tab order: digit `k` opens the view at tab position `k - 1`,
/// with the first row selected and the list at its top.
pub proof fn lemma_digits_open_views(
    a: App,
    b: App,
    c: char,
    listing: Seq<usize>,
    message: Option<String>,
)
    requires
        !a.is_scanning,
        !a.filter_mode,
        '1' <= c <= '4',
        key_applied(a, b, command_for(a, Key::Char(c)), listing, message),
    ensures
        view_index(b.view_mode) == (c as nat) - ('1' as nat),
        b.selected_index == 0,
        b.scroll_offset == 0,
        b.current_node == a.current_node,
        b.filter_mode == a.filter_mode,
{
    if c == '1' {
    } else if c == '2' {
    } else if c == '3' {
    } else {
        assert(c == '4');
    }
}

proof fn lemma_listed_len(app: App)
    ensures
        listed_children(app).len() <= usize::MAX,
{
    if listed_node(app) is Some {
        let n = listed_node(app)->0;
        assert(n.children@.len() == n.children.len());
    }
}

proof fn lemma_kept_upto_members(app: App, k: nat)
    requires
        k <= listed_children(app).len(),
    ensures
        forall|i: int| 0 <= i < k ==> (kept_upto(app, k).contains(i as usize) <==> passes_filter(
            app,
            #[trigger] listed_children(app)[i],
        )),
        forall|j: int| 0 <= j < kept_upto(app, k).len() ==> (#[trigger] kept_upto(app, k)[j]) < k,
    decreases k,
{
    lemma_kept_upto_in_range(app, k);
    lemma_listed_len(app);
    if k > 0 {
        lemma_kept_upto_members(app, (k - 1) as nat);
        let prev = kept_upto(app, (k - 1) as nat);
        let cur = kept_upto(app, k);
        assert forall|i: int| 0 <= i < k implies (cur.contains(i as usize) <==> passes_filter(
            app,
            #[trigger] listed_children(app)[i],
        )) by {
            if i < k - 1 {
                if cur.contains(i as usize) {
                    let y = choose|y: int| 0 <= y < cur.len() && cur[y] == i as usize;
                    if y < prev.len() {
                        assert(prev[y] == cur[y]);
                    } else {
                        assert(cur[y] == (k - 1) as usize);
                    }
                }
                if prev.contains(i as usize) {
                    let y = choose|y: int| 0 <= y < prev.len() && prev[y] == i as usize;
                    assert(cur[y] == prev[y]);
                }
            } else {
                if passes_filter(app, listed_children(app)[k - 1]) {
                    assert(cur[prev.len() as int] == (k - 1) as usize);
                } else if cur.contains(i as usize) {
                    let y = choose|y: int| 0 <= y < cur.len() && cur[y] == i as usize;
                    assert(prev[y] < k - 1);
                }
            }
        }
    }
}

/// The list shows a child of the browsed directory exactly when there is
/// no query or the lowercase query occurs in the lowercase final component
/// of the child's path; so children with the same file name are shown or
/// hidden alike, whatever directories they lie in.
pub proof fn lemma_listing_filters_by_file_name(app: App, l: Seq<usize>)
    requires
        is_listing(app, l),
    ensures
        forall|i: int| 0 <= i < listed_children(app).len() ==> (l.contains(i as usize) <==> (app.filter_query@.len()
            == 0 || (file_name_of((#[trigger] listed_children(app)[i]).entry.path@) matches Some(n)
            && occurs_in(lowercase(app.filter_query@), lowercase(n))))),
        forall|i: int, j: int|
            0 <= i < listed_children(app).len() && 0 <= j < listed_children(app).len() && file_name_of(
                (#[trigger] listed_children(app)[i]).entry.path@,
            ) == file_name_of((#[trigger] listed_children(app)[j]).entry.path@) ==> (l.contains(i as usize)
                <==> l.contains(j as usize)),
{
    let cs = listed_children(app);
    let f = kept_positions(app);
    lemma_listed_len(app);
    lemma_kept_upto_members(app, cs.len());
    let s = choose|s: Seq<usize>|
        #[trigger] is_stable_order(listing_keys(app), s) && l.len() == s.len() && forall|k: int|
            0 <= k < l.len() ==> l[k] == f[s[k] as int];
    assert(crate::order::key_count(listing_keys(app)) == f.len());
    crate::order::lemma_sorted_distinct(listing_keys(app), s);
    crate::order::lemma_covers_all(s, f.len());
    assert forall|i: int| #![trigger cs[i]] 0 <= i < cs.len() implies (l.contains(i as usize) <==> f.contains(i as usize)) by {
        if l.contains(i as usize) {
            let k = choose|k: int| 0 <= k < l.len() && l[k] == i as usize;
            assert(f[s[k] as int] == i as usize);
        }
        if f.contains(i as usize) {
            let m = choose|m: int| 0 <= m < f.len() && f[m] == i as usize;
            assert(crate::order::covered(s, m));
            let k = choose|k: int| 0 <= k < s.len() && #[trigger] s[k] as int == m;
            assert(l[k] == f[s[k] as int]);
        }
    }
    assert forall|i: int| 0 <= i < cs.len() implies (l.contains(i as usize) <==> (app.filter_query@.len()
        == 0 || (file_name_of((#[trigger] cs[i]).entry.path@) matches Some(n) && occurs_in(
        lowercase(app.filter_query@),
        lowercase(n),
    )))) by {
        assert(f.contains(i as usize) <==> passes_filter(app, cs[i]));
    }
}

} // verus!
