//! The text that the browser's panels show, computed from its state.
use vstd::prelude::*;
use crate::order::{KeyModel, SortKeys, is_stable_order, sort_positions, lemma_first_is_largest};
use crate::paths::{display_name, entry_name, extension_of, file_name_of, path_extension, path_file_name};
use crate::scanner::ScanProgress;
use crate::text::{
    binary_size, decimal, pad_left, pad_right, repeat, format_binary_size, push_str,
    push_decimal, push_padded_left, push_padded_right, push_repeat,
};
use crate::tree::TreeNode;
use crate::ui::tui::{App, ViewMode};

verus! {

/// An entry as the panels list it: its shown name, its size and whether it
/// is a directory.
pub type Item = (String, u64, bool);

/// An item with its name as a character sequence.
pub open spec fn item_view(e: Item) -> (Seq<char>, u64, bool) {
    (e.0@, e.1, e.2)
}

pub open spec fn items_view(v: Seq<Item>) -> Seq<(Seq<char>, u64, bool)> {
    v.map_values(|e: Item| item_view(e))
}

/// The item of a node.
pub open spec fn item_of(t: TreeNode) -> (Seq<char>, u64, bool) {
    (display_name(t.entry.path@), t.entry.size, t.entry.is_directory)
}

/// The items of a subtree, parents before children, children in order.
pub open spec fn preorder(t: TreeNode) -> Seq<(Seq<char>, u64, bool)>
    decreases t,
{
    seq![item_of(t)] + preorder_upto(t, t.children@.len())
}

/// The items of the subtrees of the first `k` children.
pub open spec fn preorder_upto(t: TreeNode, k: nat) -> Seq<(Seq<char>, u64, bool)>
    decreases t, k,
{
    if k == 0 || k > t.children@.len() {
        Seq::empty()
    } else {
        preorder_upto(t, (k - 1) as nat) + preorder(t.children@[k - 1])
    }
}

/// The sum of the sizes of items, without bound.
pub open spec fn size_sum(s: Seq<(Seq<char>, u64, bool)>) -> nat
    decreases s.len(),
{
    if s.len() == 0 {
        0
    } else {
        size_sum(s.drop_last()) + s.last().1 as nat
    }
}

/// The sizes of items, in order.
pub open spec fn item_sizes(s: Seq<(Seq<char>, u64, bool)>) -> Seq<u64> {
    s.map_values(|e: (Seq<char>, u64, bool)| e.1)
}

/// The first `n` items in the given order.
pub open spec fn first_in_order(
    s: Seq<(Seq<char>, u64, bool)>,
    order: Seq<usize>,
    n: nat,
) -> Seq<(Seq<char>, u64, bool)> {
    order.take(if order.len() < n { order.len() as int } else { n as int }).map_values(
        |i: usize| s[i as int],
    )
}

/// Appends the items of a subtree, parents first.
fn collect_entries_recursive(node: &TreeNode, entries: &mut Vec<Item>)
    ensures
        items_view(final(entries)@) == items_view(old(entries)@) + preorder(*node),
    decreases *node,
{
    let name = entry_name(node.entry.path.as_str());
    entries.push((name, node.entry.size, node.entry.is_directory));
    let ghost after_own = items_view(entries@);
    proof {
        assert(items_view(entries@) =~= items_view(old(entries)@) + seq![item_of(*node)]);
    }
    let n = node.children.len();
    let mut k: usize = 0;
    while k < n
        invariant
            n == node.children@.len(),
            k <= n,
            items_view(entries@) == after_own + preorder_upto(*node, k as nat),
        decreases n - k,
    {
        collect_entries_recursive(&node.children[k], entries);
        k = k + 1;
        assert(items_view(entries@) =~= after_own + preorder_upto(*node, k as nat));
    }
    assert(items_view(entries@) =~= items_view(old(entries)@) + preorder(*node));
}

/// The items of a subtree, parents first.
pub fn collect_all_entries(node: &TreeNode) -> (r: Vec<Item>)
    ensures
        items_view(r@) == preorder(*node),
{
    let mut entries: Vec<Item> = Vec::new();
    collect_entries_recursive(node, &mut entries);
    assert(items_view(entries@) =~= preorder(*node));
    entries
}

/// The sum of the sizes of items, where it fits in a `u64`.
fn sum_sizes(entries: &Vec<Item>) -> (r: u64)
    requires
        size_sum(items_view(entries@)) <= u64::MAX,
    ensures
        r == size_sum(items_view(entries@)),
{
    let ghost s = items_view(entries@);
    let mut total: u64 = 0;
    let mut k: usize = 0;
    while k < entries.len()
        invariant
            s == items_view(entries@),
            size_sum(s) <= u64::MAX,
            k <= entries@.len(),
            total == size_sum(s.take(k as int)),
        decreases entries@.len() - k,
    {
        proof {
            assert(s.take(k + 1).drop_last() =~= s.take(k as int));
            lemma_size_sum_prefix(s, (k + 1) as nat);
        }
        total = total + entries[k].1;
        k = k + 1;
    }
    assert(s.take(entries@.len() as int) =~= s);
    total
}

proof fn lemma_size_sum_prefix(s: Seq<(Seq<char>, u64, bool)>, k: nat)
    requires
        k <= s.len(),
    ensures
        size_sum(s.take(k as int)) <= size_sum(s),
    decreases s.len() - k,
{
    if k < s.len() {
        lemma_size_sum_prefix(s, (k + 1) as nat);
        assert(s.take((k + 1) as int).drop_last() =~= s.take(k as int));
    } else {
        assert(s.take(k as int) =~= s);
    }
}

/// The items of positive size, in order.
pub open spec fn positive_items(s: Seq<(Seq<char>, u64, bool)>) -> Seq<(Seq<char>, u64, bool)>
    decreases s.len(),
{
    if s.len() == 0 {
        Seq::empty()
    } else if s.last().1 > 0 {
        positive_items(s.drop_last()).push(s.last())
    } else {
        positive_items(s.drop_last())
    }
}

/// The icon of a directory or of a file.
pub open spec fn icon(is_directory: bool) -> Seq<char> {
    if is_directory {
        "📁"@
    } else {
        "📄"@
    }
}

/// The line of the size picture for an item: an icon, a bar of one block
/// per two percent (at least one), the percentage and the name.
pub open spec fn treemap_line(e: (Seq<char>, u64, bool), total: u64) -> Seq<char> {
    let pct = (e.1 * 100) / (total as int);
    icon(e.2) + " "@ + repeat("█"@, if pct / 2 >= 1 { (pct / 2) as nat } else { 1 }) + " "@
        + pad_left(decimal(pct as nat), 3) + "% "@ + e.0 + "\n"@
}

pub open spec fn treemap_lines(s: Seq<(Seq<char>, u64, bool)>, total: u64) -> Seq<char>
    decreases s.len(),
{
    if s.len() == 0 {
        Seq::empty()
    } else {
        treemap_lines(s.drop_last(), total) + treemap_line(s.last(), total)
    }
}

/// The most items that the size picture shows.
pub const TREEMAP_ITEMS: usize = 15;

/// No percentage of an item's size overflows.
pub open spec fn percent_fits(s: Seq<(Seq<char>, u64, bool)>) -> bool {
    forall|i: int| 0 <= i < s.len() ==> (#[trigger] s[i]).1 * 100 <= u64::MAX
}

/// The size picture of a subtree: the fifteen largest items of positive
/// size, in stable order of decreasing size, each with its share of the
/// summed sizes of all items.
pub open spec fn treemap_text(t: TreeNode, order: Seq<usize>) -> Seq<char> {
    let items = preorder(t);
    let total = size_sum(items);
    if total == 0 {
        "All files are empty"@
    } else {
        let pos = positive_items(items);
        "Size-based visualization:\n\n"@ + treemap_lines(
            first_in_order(pos, order, TREEMAP_ITEMS as nat),
            total as u64,
        )
    }
}

/// Keeps the items of positive size.
fn keep_positive(entries: &Vec<Item>) -> (r: Vec<Item>)
    ensures
        items_view(r@) == positive_items(items_view(entries@)),
{
    let ghost s = items_view(entries@);
    let mut r: Vec<Item> = Vec::new();
    let mut k: usize = 0;
    while k < entries.len()
        invariant
            s == items_view(entries@),
            k <= entries@.len(),
            items_view(r@) == positive_items(s.take(k as int)),
        decreases entries@.len() - k,
    {
        proof {
            assert(s.take(k + 1).drop_last() =~= s.take(k as int));
        }
        if entries[k].1 > 0 {
            r.push((entries[k].0.clone(), entries[k].1, entries[k].2));
            assert(items_view(r@) =~= positive_items(s.take(k + 1)));
        }
        k = k + 1;
    }
    assert(s.take(entries@.len() as int) =~= s);
    r
}

/// The stable order of items by decreasing size.
fn order_by_size(entries: &Vec<Item>) -> (order: Vec<usize>)
    ensures
        is_stable_order(KeyModel::SizeDesc(item_sizes(items_view(entries@))), order@),
{
    let ghost s = items_view(entries@);
    let mut sizes: Vec<u64> = Vec::new();
    let mut k: usize = 0;
    while k < entries.len()
        invariant
            s == items_view(entries@),
            k <= entries@.len(),
            sizes@ == item_sizes(s).take(k as int),
        decreases entries@.len() - k,
    {
        sizes.push(entries[k].1);
        k = k + 1;
        assert(sizes@ =~= item_sizes(s).take(k as int));
    }
    assert(sizes@ =~= item_sizes(s));
    let keys = SortKeys::SizeDesc(sizes);
    sort_positions(&keys)
}

fn push_treemap_line(out: &mut String, e: &Item, total: u64)
    requires
        total > 0,
        e.1 * 100 <= u64::MAX,
    ensures
        final(out)@ == old(out)@ + treemap_line(item_view(*e), total),
{
    let pct = (e.1 * 100) / total;
    let half = pct / 2;
    let bars = if half >= 1 {
        half
    } else {
        1
    };
    if e.2 {
        push_str(out, "📁");
    } else {
        push_str(out, "📄");
    }
    push_str(out, " ");
    push_repeat(out, "█", bars);
    push_str(out, " ");
    let pct_text = crate::text::decimal_string(pct);
    push_padded_left(out, pct_text.as_str(), 3);
    push_str(out, "% ");
    push_str(out, e.0.as_str());
    push_str(out, "\n");
    assert(final(out)@ =~= old(out)@ + treemap_line(item_view(*e), total));
}

proof fn lemma_positive_fits(s: Seq<(Seq<char>, u64, bool)>)
    requires
        percent_fits(s),
    ensures
        percent_fits(positive_items(s)),
    decreases s.len(),
{
    if s.len() > 0 {
        assert(percent_fits(s.drop_last())) by {
            assert forall|i: int| 0 <= i < s.drop_last().len() implies (#[trigger] s.drop_last()[i]).1 * 100 <= u64::MAX by {
                assert(s.drop_last()[i] == s[i]);
            }
        }
        lemma_positive_fits(s.drop_last());
        let p = positive_items(s.drop_last());
        assert forall|i: int| 0 <= i < positive_items(s).len() implies (#[trigger] positive_items(s)[i]).1 * 100 <= u64::MAX by {
            if i < p.len() {
                assert(positive_items(s)[i] == p[i]);
            } else {
                assert(positive_items(s)[i] == s[s.len() - 1]);
            }
        }
    }
}

/// The size picture of a subtree. Only the shown items' percentages are
/// computed; `lemma_treemap_fits_where_shown` shows that they fit exactly
/// when every item's does.
pub fn build_treemap_visualization(node: &TreeNode) -> (r: String)
    requires
        size_sum(preorder(*node)) <= u64::MAX,
        percent_fits(preorder(*node)),
    ensures
        exists|order: Seq<usize>|
            is_stable_order(
                KeyModel::SizeDesc(item_sizes(positive_items(preorder(*node)))),
                order,
            ) && r@ == treemap_text(*node, order),
{
    let entries = collect_all_entries(node);
    let ghost items = preorder(*node);
    if entries.len() == 0 {
        assert(items.len() > 0);
        return "No files to display".to_owned();
    }
    let total = sum_sizes(&entries);
    let top = keep_positive(&entries);
    let order = order_by_size(&top);
    if total == 0 {
        let r = "All files are empty".to_owned();
        assert(r@ == treemap_text(*node, order@));
        return r;
    }
    let mut visualization = String::new();
    push_str(&mut visualization, "Size-based visualization:\n\n");
    let ghost head = visualization@;
    let ghost pos = items_view(top@);
    let shown = if order.len() < TREEMAP_ITEMS {
        order.len()
    } else {
        TREEMAP_ITEMS
    };
    proof {
        lemma_positive_fits(items);
    }
    let mut k: usize = 0;
    while k < shown
        invariant
            pos == items_view(top@),
            pos == positive_items(items),
            percent_fits(pos),
            total > 0,
            total == size_sum(items),
            order@.len() == top@.len(),
            forall|j: int| 0 <= j < order@.len() ==> order@[j] < top@.len(),
            shown <= order@.len(),
            shown == (if order@.len() < TREEMAP_ITEMS as nat { order@.len() as int } else { TREEMAP_ITEMS as int }),
            k <= shown,
            visualization@ == head + treemap_lines(order@.take(k as int).map_values(|i: usize| pos[i as int]), total),
        decreases shown - k,
    {
        let e = &top[order[k]];
        proof {
            let i = order@[k as int] as int;
            assert(pos[i] == item_view(*e));
            assert(pos[i].1 * 100 <= u64::MAX);
            assert(order@.take(k + 1).map_values(|i: usize| pos[i as int]).drop_last() =~= order@.take(k as int).map_values(|i: usize| pos[i as int]));
        }
        push_treemap_line(&mut visualization, e, total);
        k = k + 1;
    }
    proof {
        assert(order@.take(shown as int).map_values(|i: usize| pos[i as int]) =~= first_in_order(pos, order@, TREEMAP_ITEMS as nat));
        assert(visualization@ == treemap_text(*node, order@));
    }
    visualization
}

/// The position of the largest item; the last one among equals.
pub open spec fn largest_index(s: Seq<(Seq<char>, u64, bool)>) -> int
    decreases s.len(),
{
    if s.len() <= 1 {
        0
    } else {
        let j = largest_index(s.drop_last());
        if s.last().1 >= s[j].1 {
            s.len() - 1
        } else {
            j
        }
    }
}

/// The largest item as shown: its name and size, or `None` where there is
/// no item.
pub open spec fn largest_text(s: Seq<(Seq<char>, u64, bool)>) -> Seq<char> {
    if s.len() == 0 {
        "None"@
    } else {
        let e = s[largest_index(s)];
        e.0 + " ("@ + binary_size(e.1) + ")"@
    }
}

proof fn lemma_largest_index_range(s: Seq<(Seq<char>, u64, bool)>)
    requires
        s.len() > 0,
    ensures
        0 <= largest_index(s) < s.len(),
    decreases s.len(),
{
    if s.len() > 1 {
        lemma_largest_index_range(s.drop_last());
    }
}

/// The largest item of a subtree, as shown.
pub fn find_largest_item(node: &TreeNode) -> (r: String)
    ensures
        r@ == largest_text(preorder(*node)),
{
    let entries = collect_all_entries(node);
    let ghost s = items_view(entries@);
    if entries.len() == 0 {
        return "None".to_owned();
    }
    let mut best: usize = 0;
    let mut k: usize = 1;
    while k < entries.len()
        invariant
            s == items_view(entries@),
            1 <= k <= entries@.len(),
            best == largest_index(s.take(k as int)),
            best < k,
        decreases entries@.len() - k,
    {
        proof {
            assert(s.take(k + 1).drop_last() =~= s.take(k as int));
            assert(s.take(k + 1)[best as int] == s[best as int]);
        }
        if entries[k].1 >= entries[best].1 {
            best = k;
        }
        k = k + 1;
    }
    proof {
        assert(s.take(entries@.len() as int) =~= s);
    }
    let e = &entries[best];
    let mut r = String::new();
    push_str(&mut r, e.0.as_str());
    push_str(&mut r, " (");
    let size_text = format_binary_size(e.1);
    push_str(&mut r, size_text.as_str());
    push_str(&mut r, ")");
    r
}

/// The usage summary of the browsed tree.
pub open spec fn usage_text(app: App) -> Seq<char> {
    match app.tree {
        Some(t) => {
            let avg: u64 = if t.total_files > 0 {
                (t.total_size / t.total_files) as u64
            } else {
                0
            };
            "Total Size: "@ + binary_size(t.total_size) + "\nFiles: "@ + decimal(t.total_files as nat)
                + "\nDirectories: "@ + decimal(t.total_dirs as nat) + "\nLargest Item: "@
                + largest_text(preorder(t.root)) + "\nAverage File Size: "@ + binary_size(avg)
        },
        None => "No data available"@,
    }
}

pub fn usage_summary_text(app: &App) -> (r: String)
    ensures
        r@ == usage_text(*app),
{
    match &app.tree {
        Some(tree) => {
            let largest = find_largest_item(&tree.root);
            let avg_size = if tree.total_files > 0 {
                tree.total_size / tree.total_files
            } else {
                0
            };
            let mut r = String::new();
            push_str(&mut r, "Total Size: ");
            let total_text = format_binary_size(tree.total_size);
            push_str(&mut r, total_text.as_str());
            push_str(&mut r, "\nFiles: ");
            push_decimal(&mut r, tree.total_files);
            push_str(&mut r, "\nDirectories: ");
            push_decimal(&mut r, tree.total_dirs);
            push_str(&mut r, "\nLargest Item: ");
            push_str(&mut r, largest.as_str());
            push_str(&mut r, "\nAverage File Size: ");
            let avg_text = format_binary_size(avg_size);
            push_str(&mut r, avg_text.as_str());
            r
        },
        None => "No data available".to_owned(),
    }
}

/// The category of an item in the size breakdown: directories, files by
/// extension, or files without one.
pub open spec fn category_of(e: (Seq<char>, u64, bool)) -> Seq<char> {
    if e.2 {
        "Directories"@
    } else {
        match extension_of(e.0) {
            Some(ext) => "*."@ + ext,
            None => "No extension"@,
        }
    }
}

/// The position of category `c` among the groups.
pub open spec fn category_index(g: Seq<(Seq<char>, nat)>, c: Seq<char>) -> Option<int>
    decreases g.len(),
{
    if g.len() == 0 {
        None
    } else if g.last().0 == c {
        Some(g.len() - 1)
    } else {
        category_index(g.drop_last(), c)
    }
}

/// The categories of the items, in order of first appearance, each with
/// the summed size of its items.
pub open spec fn group_sizes(s: Seq<(Seq<char>, u64, bool)>) -> Seq<(Seq<char>, nat)>
    decreases s.len(),
{
    if s.len() == 0 {
        Seq::empty()
    } else {
        let g = group_sizes(s.drop_last());
        let e = s.last();
        let c = category_of(e);
        match category_index(g, c) {
            Some(i) => g.update(i, (c, g[i].1 + e.1 as nat)),
            None => g.push((c, e.1 as nat)),
        }
    }
}

pub open spec fn group_view(g: Seq<(String, u64)>) -> Seq<(Seq<char>, nat)> {
    g.map_values(|e: (String, u64)| (e.0@, e.1 as nat))
}

pub open spec fn group_size_keys(g: Seq<(Seq<char>, nat)>) -> Seq<u64> {
    g.map_values(|e: (Seq<char>, nat)| e.1 as u64)
}

/// The line of a category: its size, its share of the total and its name.
pub open spec fn breakdown_line(g: (Seq<char>, nat), total: nat) -> Seq<char> {
    pad_right(binary_size(g.1 as u64), 12) + " "@ + pad_left(decimal(g.1 * 100 / total), 6) + "% "@
        + g.0 + "\n"@
}

pub open spec fn breakdown_lines(g: Seq<(Seq<char>, nat)>, total: nat) -> Seq<char>
    decreases g.len(),
{
    if g.len() == 0 {
        Seq::empty()
    } else {
        breakdown_lines(g.drop_last(), total) + breakdown_line(g.last(), total)
    }
}

/// The most categories that the breakdown shows.
pub const BREAKDOWN_CATEGORIES: usize = 10;

pub open spec fn first_groups(g: Seq<(Seq<char>, nat)>, order: Seq<usize>, n: nat) -> Seq<(Seq<char>, nat)> {
    order.take(if order.len() < n { order.len() as int } else { n as int }).map_values(
        |i: usize| g[i as int],
    )
}

/// The size breakdown of a subtree: the ten largest categories, in stable
/// order of decreasing size, each with its share of the summed sizes of
/// all items.
pub open spec fn breakdown_text(t: TreeNode, order: Seq<usize>) -> Seq<char> {
    let items = preorder(t);
    let total = size_sum(items);
    if total == 0 {
        "All files are empty"@
    } else {
        "Size distribution:\n\n"@ + breakdown_lines(
            first_groups(group_sizes(items), order, BREAKDOWN_CATEGORIES as nat),
            total,
        )
    }
}

/// No category's percentage overflows.
pub open spec fn group_percent_fits(t: TreeNode) -> bool {
    forall|i: int| 0 <= i < group_sizes(preorder(t)).len() ==> (#[trigger] group_sizes(preorder(t))[i]).1 * 100 <= u64::MAX
}

fn category_string(e: &Item) -> (r: String)
    ensures
        r@ == category_of(item_view(*e)),
{
    if e.2 {
        "Directories".to_owned()
    } else {
        match path_extension(e.0.as_str()) {
            Some(ext) => {
                let mut r = String::new();
                push_str(&mut r, "*.");
                push_str(&mut r, ext.as_str());
                r
            },
            None => "No extension".to_owned(),
        }
    }
}

proof fn lemma_category_index(g: Seq<(Seq<char>, nat)>, c: Seq<char>)
    ensures
        category_index(g, c) matches Some(i) ==> 0 <= i < g.len() && g[i].0 == c && forall|j: int|
            i < j < g.len() ==> #[trigger] g[j].0 != c,
        category_index(g, c) is None ==> forall|j: int| 0 <= j < g.len() ==> #[trigger] g[j].0 != c,
    decreases g.len(),
{
    if g.len() > 0 {
        let d = g.drop_last();
        lemma_category_index(d, c);
        assert forall|j: int| 0 <= j < d.len() implies d[j] == g[j] by {}
        if g.last().0 != c {
            if category_index(d, c) is None {
                assert forall|j: int| 0 <= j < g.len() implies #[trigger] g[j].0 != c by {
                    if j < d.len() {
                        assert(d[j].0 != c);
                    }
                }
            } else {
                let i = category_index(d, c)->0;
                assert forall|j: int| i < j < g.len() implies #[trigger] g[j].0 != c by {
                    if j < d.len() {
                        assert(d[j].0 != c);
                    }
                }
            }
        }
    }
}

proof fn lemma_category_index_at(g: Seq<(Seq<char>, nat)>, c: Seq<char>, i: int)
    requires
        0 <= i < g.len(),
        g[i].0 == c,
        forall|j: int| i < j < g.len() ==> #[trigger] g[j].0 != c,
    ensures
        category_index(g, c) == Some(i),
    decreases g.len(),
{
    if i < g.len() - 1 {
        lemma_category_index_at(g.drop_last(), c, i);
    }
}

proof fn lemma_category_index_none(g: Seq<(Seq<char>, nat)>, c: Seq<char>)
    requires
        forall|j: int| 0 <= j < g.len() ==> #[trigger] g[j].0 != c,
    ensures
        category_index(g, c) is None,
    decreases g.len(),
{
    if g.len() > 0 {
        lemma_category_index_none(g.drop_last(), c);
    }
}

/// The position of a category among the groups.
fn find_category(groups: &Vec<(String, u64)>, category: &String) -> (r: Option<usize>)
    ensures
        r matches Some(i) ==> category_index(group_view(groups@), category@) == Some(i as int),
        r is None ==> category_index(group_view(groups@), category@) is None,
{
    let ghost g = group_view(groups@);
    let mut i = groups.len();
    while i > 0
        invariant
            i <= groups@.len(),
            g == group_view(groups@),
            forall|j: int| i <= j < groups@.len() ==> #[trigger] g[j].0 != category@,
        decreases i,
    {
        if groups[i - 1].0 == *category {
            proof {
                lemma_category_index_at(g, category@, i - 1);
            }
            return Some(i - 1);
        }
        i = i - 1;
    }
    proof {
        lemma_category_index_none(g, category@);
    }
    None
}

/// Groups the items by category.
fn group_by_category(entries: &Vec<Item>) -> (r: Vec<(String, u64)>)
    requires
        size_sum(items_view(entries@)) <= u64::MAX,
    ensures
        group_view(r@) == group_sizes(items_view(entries@)),
        forall|i: int| 0 <= i < r@.len() ==> (#[trigger] r@[i]).1 <= size_sum(items_view(entries@)),
{
    let ghost s = items_view(entries@);
    let mut groups: Vec<(String, u64)> = Vec::new();
    let mut k: usize = 0;
    while k < entries.len()
        invariant
            s == items_view(entries@),
            size_sum(s) <= u64::MAX,
            k <= entries@.len(),
            group_view(groups@) == group_sizes(s.take(k as int)),
            forall|i: int| 0 <= i < groups@.len() ==> (#[trigger] groups@[i]).1 <= size_sum(s.take(k as int)),
        decreases entries@.len() - k,
    {
        let ghost g = group_view(groups@);
        proof {
            assert(s.take(k + 1).drop_last() =~= s.take(k as int));
            assert(s.take(k + 1).last() == s[k as int]);
            lemma_size_sum_prefix(s, (k + 1) as nat);
        }
        let e = &entries[k];
        let category = category_string(e);
        let found = find_category(&groups, &category);
        proof {
            lemma_category_index(g, category@);
        }
        match found {
            Some(idx) => {
                proof {
                    assert(groups@[idx as int].1 <= size_sum(s.take(k as int)));
                }
                let updated = groups[idx].1 + e.1;
                groups.set(idx, (category, updated));
            },
            None => {
                groups.push((category, e.1));
            },
        }
        k = k + 1;
        proof {
            assert(group_view(groups@) =~= group_sizes(s.take(k as int)));
        }
    }
    proof {
        assert(s.take(entries@.len() as int) =~= s);
    }
    groups
}

fn push_breakdown_line(out: &mut String, g: &(String, u64), total: u64)
    requires
        total > 0,
        g.1 * 100 <= u64::MAX,
    ensures
        final(out)@ == old(out)@ + breakdown_line((g.0@, g.1 as nat), total as nat),
{
    let size_text = format_binary_size(g.1);
    push_padded_right(out, size_text.as_str(), 12);
    push_str(out, " ");
    let pct = crate::text::decimal_string((g.1 * 100) / total);
    push_padded_left(out, pct.as_str(), 6);
    push_str(out, "% ");
    push_str(out, g.0.as_str());
    push_str(out, "\n");
    assert(final(out)@ =~= old(out)@ + breakdown_line((g.0@, g.1 as nat), total as nat));
}

/// The size breakdown of a subtree by category. Only the shown categories'
/// percentages are computed; `lemma_breakdown_fits_where_shown` shows that
/// they fit exactly when every category's does.
pub fn build_size_breakdown_text(node: &TreeNode) -> (r: String)
    requires
        size_sum(preorder(*node)) <= u64::MAX,
        group_percent_fits(*node),
    ensures
        exists|order: Seq<usize>|
            is_stable_order(KeyModel::SizeDesc(group_size_keys(group_sizes(preorder(*node)))), order)
                && r@ == breakdown_text(*node, order),
{
    let entries = collect_all_entries(node);
    let ghost items = preorder(*node);
    if entries.len() == 0 {
        assert(items.len() > 0);
        return "No files found".to_owned();
    }
    let total = sum_sizes(&entries);
    let groups = group_by_category(&entries);
    let ghost gv = group_view(groups@);
    let mut sizes: Vec<u64> = Vec::new();
    let mut k: usize = 0;
    while k < groups.len()
        invariant
            k <= groups@.len(),
            gv == group_view(groups@),
            sizes@ == group_size_keys(gv).take(k as int),
        decreases groups@.len() - k,
    {
        sizes.push(groups[k].1);
        k = k + 1;
        assert(sizes@ =~= group_size_keys(gv).take(k as int));
    }
    assert(sizes@ =~= group_size_keys(gv));
    let keys = SortKeys::SizeDesc(sizes);
    let order = sort_positions(&keys);
    if total == 0 {
        let r = "All files are empty".to_owned();
        assert(r@ == breakdown_text(*node, order@));
        return r;
    }
    let mut breakdown = String::new();
    push_str(&mut breakdown, "Size distribution:\n\n");
    let ghost head = breakdown@;
    let shown = if order.len() < BREAKDOWN_CATEGORIES {
        order.len()
    } else {
        BREAKDOWN_CATEGORIES
    };
    let mut k: usize = 0;
    while k < shown
        invariant
            gv == group_view(groups@),
            gv == group_sizes(items),
            group_percent_fits(*node),
            items == preorder(*node),
            total > 0,
            total == size_sum(items),
            order@.len() == groups@.len(),
            forall|j: int| 0 <= j < order@.len() ==> order@[j] < groups@.len(),
            shown <= order@.len(),
            shown == (if order@.len() < BREAKDOWN_CATEGORIES as nat { order@.len() as int } else { BREAKDOWN_CATEGORIES as int }),
            k <= shown,
            breakdown@ == head + breakdown_lines(order@.take(k as int).map_values(|i: usize| gv[i as int]), total as nat),
        decreases shown - k,
    {
        let g = &groups[order[k]];
        proof {
            let i = order@[k as int] as int;
            assert(gv[i] == (g.0@, g.1 as nat));
            assert(gv[i].1 * 100 <= u64::MAX);
            assert(order@.take(k + 1).map_values(|i: usize| gv[i as int]).drop_last() =~= order@.take(k as int).map_values(|i: usize| gv[i as int]));
        }
        push_breakdown_line(&mut breakdown, g, total);
        k = k + 1;
    }
    proof {
        assert(order@.take(shown as int).map_values(|i: usize| gv[i as int]) =~= first_groups(gv, order@, BREAKDOWN_CATEGORIES as nat));
        assert(breakdown@ == breakdown_text(*node, order@));
    }
    breakdown
}

pub open spec fn strings_view(v: Seq<String>) -> Seq<Seq<char>> {
    v.map_values(|t: String| t@)
}

/// The selection marker of a row.
pub open spec fn selector(index: int, selected_index: usize) -> Seq<char> {
    if index == selected_index {
        "▶"@
    } else {
        ""@
    }
}

/// A row of the file tree: marker, icon, name (directories ending in `/`)
/// and size.
pub open spec fn tree_row(c: TreeNode, index: int, selected_index: usize) -> Seq<Seq<char>> {
    let name = display_name(c.entry.path@);
    seq![
        selector(index, selected_index),
        icon(c.entry.is_directory),
        if c.entry.is_directory { name + "/"@ } else { name },
        binary_size(c.entry.size),
    ]
}

/// A row of the details table: marker, icon, name, size and kind.
pub open spec fn file_row(c: TreeNode, index: int, selected_index: usize) -> Seq<Seq<char>> {
    seq![
        selector(index, selected_index),
        icon(c.entry.is_directory),
        display_name(c.entry.path@),
        binary_size(c.entry.size),
        if c.entry.is_directory { "DIR"@ } else { "FILE"@ },
    ]
}

fn marker(index: usize, selected_index: usize) -> (r: String)
    ensures
        r@ == selector(index as int, selected_index),
{
    if index == selected_index {
        "▶".to_owned()
    } else {
        "".to_owned()
    }
}

fn icon_text(is_directory: bool) -> (r: String)
    ensures
        r@ == icon(is_directory),
{
    if is_directory {
        "📁".to_owned()
    } else {
        "📄".to_owned()
    }
}

/// The header and rows of the file tree.
pub fn build_tree_table(children: &Vec<&TreeNode>, selected_index: usize) -> (r: (
    Vec<String>,
    Vec<Vec<String>>,
))
    ensures
        strings_view(r.0@) == seq![""@, ""@, "Name"@, "Size"@],
        r.1@.len() == children@.len(),
        forall|k: int|
            0 <= k < children@.len() ==> strings_view((#[trigger] r.1@[k])@) == tree_row(
                *children@[k],
                k,
                selected_index,
            ),
{
    let mut header: Vec<String> = Vec::new();
    header.push("".to_owned());
    header.push("".to_owned());
    header.push("Name".to_owned());
    header.push("Size".to_owned());
    assert(strings_view(header@) =~= seq![""@, ""@, "Name"@, "Size"@]);
    let mut rows: Vec<Vec<String>> = Vec::new();
    let mut k: usize = 0;
    while k < children.len()
        invariant
            k <= children@.len(),
            rows@.len() == k,
            forall|j: int|
                0 <= j < k ==> strings_view((#[trigger] rows@[j])@) == tree_row(
                    *children@[j],
                    j,
                    selected_index,
                ),
        decreases children@.len() - k,
    {
        let child = children[k];
        let name = entry_name(child.entry.path.as_str());
        let display_name = if child.entry.is_directory {
            let mut d = name;
            push_str(&mut d, "/");
            d
        } else {
            name
        };
        let mut row: Vec<String> = Vec::new();
        row.push(marker(k, selected_index));
        row.push(icon_text(child.entry.is_directory));
        row.push(display_name);
        row.push(format_binary_size(child.entry.size));
        assert(strings_view(row@) =~= tree_row(*children@[k as int], k as int, selected_index));
        rows.push(row);
        k = k + 1;
    }
    (header, rows)
}

/// The header and rows of the details table.
pub fn build_file_table(children: &Vec<&TreeNode>, selected_index: usize) -> (r: (
    Vec<String>,
    Vec<Vec<String>>,
))
    ensures
        strings_view(r.0@) == seq![""@, ""@, "Name"@, "Size"@, "Type"@],
        r.1@.len() == children@.len(),
        forall|k: int|
            0 <= k < children@.len() ==> strings_view((#[trigger] r.1@[k])@) == file_row(
                *children@[k],
                k,
                selected_index,
            ),
{
    let mut header: Vec<String> = Vec::new();
    header.push("".to_owned());
    header.push("".to_owned());
    header.push("Name".to_owned());
    header.push("Size".to_owned());
    header.push("Type".to_owned());
    assert(strings_view(header@) =~= seq![""@, ""@, "Name"@, "Size"@, "Type"@]);
    let mut rows: Vec<Vec<String>> = Vec::new();
    let mut k: usize = 0;
    while k < children.len()
        invariant
            k <= children@.len(),
            rows@.len() == k,
            forall|j: int|
                0 <= j < k ==> strings_view((#[trigger] rows@[j])@) == file_row(
                    *children@[j],
                    j,
                    selected_index,
                ),
        decreases children@.len() - k,
    {
        let child = children[k];
        let mut row: Vec<String> = Vec::new();
        row.push(marker(k, selected_index));
        row.push(icon_text(child.entry.is_directory));
        row.push(entry_name(child.entry.path.as_str()));
        row.push(format_binary_size(child.entry.size));
        row.push(if child.entry.is_directory {
            "DIR".to_owned()
        } else {
            "FILE".to_owned()
        });
        assert(strings_view(row@) =~= file_row(*children@[k as int], k as int, selected_index));
        rows.push(row);
        k = k + 1;
    }
    (header, rows)
}

/// The most items that the list of largest items shows.
pub const TOP_ITEMS: usize = 10;

/// A line of the list of largest items: icon, name in a field of forty
/// characters and size in a field of twelve.
pub open spec fn top_item_line(e: (Seq<char>, u64, bool)) -> Seq<char> {
    icon(e.2) + "  "@ + pad_right(e.0, 40) + " "@ + pad_left(binary_size(e.1), 12)
}

/// The items of the given nodes, in order.
pub open spec fn node_items(cs: Seq<&TreeNode>) -> Seq<(Seq<char>, u64, bool)> {
    cs.map_values(|c: &TreeNode| item_of(*c))
}

/// The list of largest items among the given nodes: the ten largest, in
/// stable order of decreasing size, or a notice where there is none.
pub fn build_top_items_list(children: &Vec<&TreeNode>) -> (r: Vec<String>)
    ensures
        children@.len() == 0 ==> strings_view(r@) == seq!["No items found"@],
        children@.len() > 0 ==> exists|order: Seq<usize>|
            is_stable_order(KeyModel::SizeDesc(item_sizes(node_items(children@))), order)
                && strings_view(r@) == first_in_order(node_items(children@), order, TOP_ITEMS as nat).map_values(
                |e: (Seq<char>, u64, bool)| top_item_line(e),
            ),
{
    let mut entries: Vec<Item> = Vec::new();
    let mut k: usize = 0;
    while k < children.len()
        invariant
            k <= children@.len(),
            items_view(entries@) == node_items(children@).take(k as int),
        decreases children@.len() - k,
    {
        let child = children[k];
        let ghost before = items_view(entries@);
        let name = entry_name(child.entry.path.as_str());
        entries.push((name, child.entry.size, child.entry.is_directory));
        proof {
            assert(*child == *children@[k as int]);
            assert(items_view(entries@) =~= before.push(item_of(*children@[k as int])));
            assert(node_items(children@).take(k + 1) =~= node_items(children@).take(k as int).push(item_of(*children@[k as int])));
        }
        k = k + 1;
    }
    assert(items_view(entries@) =~= node_items(children@));
    let ghost s = items_view(entries@);
    let order = order_by_size(&entries);
    let shown = if order.len() < TOP_ITEMS {
        order.len()
    } else {
        TOP_ITEMS
    };
    let mut items: Vec<String> = Vec::new();
    let mut k: usize = 0;
    while k < shown
        invariant
            s == items_view(entries@),
            order@.len() == entries@.len(),
            forall|j: int| 0 <= j < order@.len() ==> order@[j] < entries@.len(),
            shown <= order@.len(),
            k <= shown,
            strings_view(items@) == order@.take(k as int).map_values(|i: usize| s[i as int]).map_values(
                |e: (Seq<char>, u64, bool)| top_item_line(e),
            ),
        decreases shown - k,
    {
        let e = &entries[order[k]];
        let mut line = String::new();
        if e.2 {
            push_str(&mut line, "📁 ");
        } else {
            push_str(&mut line, "📄 ");
        }
        push_str(&mut line, " ");
        push_padded_right(&mut line, e.0.as_str(), 40);
        push_str(&mut line, " ");
        let size_text = format_binary_size(e.1);
        push_padded_left(&mut line, size_text.as_str(), 12);
        proof {
            reveal_strlit("📁 ");
            reveal_strlit("📄 ");
            reveal_strlit("📁");
            reveal_strlit("📄");
            reveal_strlit(" ");
            reveal_strlit("  ");
            assert(line@ =~= top_item_line(s[order@[k as int] as int]));
        }
        let ghost before = strings_view(items@);
        items.push(line);
        proof {
            let f = |i: usize| s[i as int];
            let g = |e: (Seq<char>, u64, bool)| top_item_line(e);
            assert(order@.take(k + 1) =~= order@.take(k as int).push(order@[k as int]));
            assert(order@.take(k + 1).map_values(f) =~= order@.take(k as int).map_values(f).push(s[order@[k as int] as int]));
            assert(order@.take(k + 1).map_values(f).map_values(g) =~= order@.take(k as int).map_values(f).map_values(g).push(top_item_line(s[order@[k as int] as int])));
            assert(strings_view(items@) =~= before.push(line@));
        }
        k = k + 1;
    }
    if items.len() == 0 {
        items.push("No items found".to_owned());
        assert(strings_view(items@) =~= seq!["No items found"@]);
        return items;
    }
    assert(order@.take(shown as int).map_values(|i: usize| s[i as int]) =~= first_in_order(s, order@, TOP_ITEMS as nat));
    items
}

/// The title of the browser.
pub open spec fn header_text(app: App) -> Seq<char> {
    if app.is_scanning {
        "dirstat - Scanning ["@ + app.current_path@ + "]"@
    } else {
        "dirstat - Modern Disk Usage Analyzer ["@ + app.current_path@ + "]"@
    }
}

pub fn header_title(app: &App) -> (r: String)
    ensures
        r@ == header_text(*app),
{
    let mut r = String::new();
    if app.is_scanning {
        push_str(&mut r, "dirstat - Scanning [");
    } else {
        push_str(&mut r, "dirstat - Modern Disk Usage Analyzer [");
    }
    push_str(&mut r, app.current_path.as_str());
    push_str(&mut r, "]");
    r
}

/// The titles of the view tabs, in the order of the views.
pub fn tab_titles() -> (r: Vec<String>)
    ensures
        strings_view(r@) == seq!["Tree View (1)"@, "Chart View (2)"@, "Details (3)"@, "Treemap (4)"@],
{
    let mut r: Vec<String> = Vec::new();
    r.push("Tree View (1)".to_owned());
    r.push("Chart View (2)".to_owned());
    r.push("Details (3)".to_owned());
    r.push("Treemap (4)".to_owned());
    assert(strings_view(r@) =~= seq!["Tree View (1)"@, "Chart View (2)"@, "Details (3)"@, "Treemap (4)"@]);
    r
}

/// The status line's note on the selected node.
pub open spec fn selected_info(n: Option<TreeNode>) -> Seq<char> {
    match n {
        Some(c) => " | Selected: "@ + match file_name_of(c.entry.path@) {
            Some(name) => name,
            None => ""@,
        } + " ("@ + binary_size(c.entry.size) + ")"@,
        None => ""@,
    }
}

/// The status line, given the selected node.
pub open spec fn status_text_for(app: App, selected: Option<TreeNode>) -> Seq<char> {
    if app.is_scanning {
        "Scanning... (Press 'q' to quit)"@
    } else {
        match app.tree {
            Some(t) => "Total: "@ + binary_size(t.total_size) + " in "@ + decimal(t.total_files as nat)
                + " files, "@ + decimal(t.total_dirs as nat) + " dirs"@ + selected_info(selected)
                + " | ↑↓:Navigate Enter:Open Backspace:Up q:Quit"@,
            None => "No data | ↑↓:Navigate Enter:Open Backspace:Up q:Quit"@,
        }
    }
}

/// The status line: scanning, the totals with the selected node, or no
/// data.
pub fn status_text(app: &App) -> (r: String)
    ensures
        exists|p: Seq<usize>|
            crate::ui::tui::is_listing(*app, p) && r@ == status_text_for(
                *app,
                crate::ui::tui::picked(*app, p),
            ),
{
    let selected = app.get_selected_node();
    let ghost sel = match selected {
        Some(n) => Some(*n),
        None => None,
    };
    let mut info = String::new();
    match selected {
        Some(node) => {
            push_str(&mut info, " | Selected: ");
            match path_file_name(node.entry.path.as_str()) {
                Some(name) => push_str(&mut info, name.as_str()),
                None => {},
            }
            push_str(&mut info, " (");
            let size_text = format_binary_size(node.entry.size);
            push_str(&mut info, size_text.as_str());
            push_str(&mut info, ")");
        },
        None => {},
    }
    proof {
        reveal_strlit("");
    }
    assert(info@ =~= selected_info(sel));
    if app.is_scanning {
        return "Scanning... (Press 'q' to quit)".to_owned();
    }
    match &app.tree {
        Some(tree) => {
            let mut r = String::new();
            push_str(&mut r, "Total: ");
            let total_text = format_binary_size(tree.total_size);
            push_str(&mut r, total_text.as_str());
            push_str(&mut r, " in ");
            push_decimal(&mut r, tree.total_files);
            push_str(&mut r, " files, ");
            push_decimal(&mut r, tree.total_dirs);
            push_str(&mut r, " dirs");
            push_str(&mut r, info.as_str());
            push_str(&mut r, " | ↑↓:Navigate Enter:Open Backspace:Up q:Quit");
            assert(r@ =~= status_text_for(*app, sel));
            r
        },
        None => "No data | ↑↓:Navigate Enter:Open Backspace:Up q:Quit".to_owned(),
    }
}

/// What the main area of the browser shows.
#[derive(Debug, Clone, Copy, PartialEq, Eq, Structural)]
pub enum Panel {
    NoData,
    Tree,
    Chart,
    Details,
    Treemap,
}

/// No data before any scan; otherwise the panel of the view.
pub fn main_panel(app: &App) -> (r: Panel)
    ensures
        app.tree is None && !app.is_scanning ==> r == Panel::NoData,
        !(app.tree is None && !app.is_scanning) ==> r == match app.view_mode {
            ViewMode::Tree => Panel::Tree,
            ViewMode::Chart => Panel::Chart,
            ViewMode::Details => Panel::Details,
            ViewMode::Treemap => Panel::Treemap,
        },
{
    if app.tree.is_none() && !app.is_scanning {
        return Panel::NoData;
    }
    match app.view_mode {
        ViewMode::Tree => Panel::Tree,
        ViewMode::Chart => Panel::Chart,
        ViewMode::Details => Panel::Details,
        ViewMode::Treemap => Panel::Treemap,
    }
}

/// The message of the empty main area.
pub fn no_data_message() -> (r: &'static str)
    ensures
        r@ == "No scan data available. Run a scan first."@,
{
    "No scan data available. Run a scan first."
}

/// The size breakdown of the browsed tree, or a notice without one.
pub fn size_breakdown_content(app: &App) -> (r: String)
    requires
        app.tree matches Some(t) ==> size_sum(preorder(t.root)) <= u64::MAX && group_percent_fits(t.root),
    ensures
        app.tree is None ==> r@ == "No data available"@,
        app.tree matches Some(t) ==> exists|order: Seq<usize>|
            is_stable_order(KeyModel::SizeDesc(group_size_keys(group_sizes(preorder(t.root)))), order)
                && r@ == breakdown_text(t.root, order),
{
    match &app.tree {
        Some(tree) => build_size_breakdown_text(&tree.root),
        None => "No data available".to_owned(),
    }
}

/// The size picture of the browsed tree, or a notice without one.
pub fn treemap_content(app: &App) -> (r: String)
    requires
        app.tree matches Some(t) ==> size_sum(preorder(t.root)) <= u64::MAX && percent_fits(preorder(t.root)),
    ensures
        app.tree is None ==> r@ == "No data available for visualization"@,
        app.tree matches Some(t) ==> exists|order: Seq<usize>|
            is_stable_order(KeyModel::SizeDesc(item_sizes(positive_items(preorder(t.root)))), order)
                && r@ == treemap_text(t.root, order),
{
    match &app.tree {
        Some(tree) => build_treemap_visualization(&tree.root),
        None => "No data available for visualization".to_owned(),
    }
}

/// The headline of a running scan.
pub fn progress_headline(progress: &ScanProgress) -> (r: String)
    ensures
        r@ == "Scanning... "@ + decimal(progress.files_scanned as nat) + " files, "@ + binary_size(
            progress.total_size,
        ),
{
    let mut r = String::new();
    push_str(&mut r, "Scanning... ");
    push_decimal(&mut r, progress.files_scanned);
    push_str(&mut r, " files, ");
    let size_text = format_binary_size(progress.total_size);
    push_str(&mut r, size_text.as_str());
    r
}

/// The path being scanned, or a notice before the first one.
pub fn progress_current_file(progress: &ScanProgress) -> (r: String)
    ensures
        progress.current_path matches Some(p) ==> r@ == p@,
        progress.current_path is None ==> r@ == "Initializing..."@,
{
    match &progress.current_path {
        Some(p) => p.clone(),
        None => "Initializing...".to_owned(),
    }
}

/// The statistics of a running scan, with the elapsed time already
/// written out in seconds.
pub fn progress_stats(progress: &ScanProgress, elapsed_seconds: &str) -> (r: String)
    ensures
        r@ == "Total Size: "@ + binary_size(progress.total_size) + "\nElapsed Time: "@ + elapsed_seconds@
            + "s\nFiles Scanned: "@ + decimal(progress.files_scanned as nat),
{
    let mut r = String::new();
    push_str(&mut r, "Total Size: ");
    let size_text = format_binary_size(progress.total_size);
    push_str(&mut r, size_text.as_str());
    push_str(&mut r, "\nElapsed Time: ");
    push_str(&mut r, elapsed_seconds);
    push_str(&mut r, "s\nFiles Scanned: ");
    push_decimal(&mut r, progress.files_scanned);
    r
}

/// The sum of the sizes of items, or `None` where it does not fit in a `u64`.
fn checked_sum(entries: &Vec<Item>) -> (r: Option<u64>)
    ensures
        r matches Some(t) ==> t == size_sum(items_view(entries@)),
        r is None ==> size_sum(items_view(entries@)) > u64::MAX,
{
    let ghost s = items_view(entries@);
    let mut total: u64 = 0;
    let mut k: usize = 0;
    while k < entries.len()
        invariant
            s == items_view(entries@),
            k <= entries@.len(),
            total == size_sum(s.take(k as int)),
        decreases entries@.len() - k,
    {
        proof {
            assert(s.take(k + 1).drop_last() =~= s.take(k as int));
        }
        match total.checked_add(entries[k].1) {
            Some(t) => {
                total = t;
            },
            None => {
                proof {
                    lemma_size_sum_prefix(s, (k + 1) as nat);
                }
                return None;
            },
        }
        k = k + 1;
    }
    assert(s.take(entries@.len() as int) =~= s);
    Some(total)
}

/// The size picture of a subtree, or `None` where summing the sizes or a
/// percentage would overflow.
pub fn treemap_if_fits(node: &TreeNode) -> (r: Option<String>)
    ensures
        r is None <==> !(size_sum(preorder(*node)) <= u64::MAX && percent_fits(preorder(*node))),
        r matches Some(text) ==> exists|order: Seq<usize>|
            is_stable_order(
                KeyModel::SizeDesc(item_sizes(positive_items(preorder(*node)))),
                order,
            ) && text@ == treemap_text(*node, order),
{
    let entries = collect_all_entries(node);
    let ghost s = items_view(entries@);
    if checked_sum(&entries).is_none() {
        return None;
    }
    let mut k: usize = 0;
    while k < entries.len()
        invariant
            s == items_view(entries@),
            s == preorder(*node),
            k <= entries@.len(),
            forall|i: int| 0 <= i < k ==> (#[trigger] s[i]).1 * 100 <= u64::MAX,
        decreases entries@.len() - k,
    {
        if entries[k].1.checked_mul(100).is_none() {
            assert(s[k as int].1 * 100 > u64::MAX);
            assert(!percent_fits(s));
            return None;
        }
        k = k + 1;
    }
    Some(build_treemap_visualization(node))
}

/// The size breakdown of a subtree, or `None` where summing the sizes or a
/// category's percentage would overflow.
pub fn breakdown_if_fits(node: &TreeNode) -> (r: Option<String>)
    ensures
        r is None <==> !(size_sum(preorder(*node)) <= u64::MAX && group_percent_fits(*node)),
        r matches Some(text) ==> exists|order: Seq<usize>|
            is_stable_order(KeyModel::SizeDesc(group_size_keys(group_sizes(preorder(*node)))), order)
                && text@ == breakdown_text(*node, order),
{
    let entries = collect_all_entries(node);
    if checked_sum(&entries).is_none() {
        return None;
    }
    let groups = group_by_category(&entries);
    let ghost g = group_view(groups@);
    let mut k: usize = 0;
    while k < groups.len()
        invariant
            g == group_view(groups@),
            g == group_sizes(preorder(*node)),
            k <= groups@.len(),
            forall|i: int| 0 <= i < k ==> (#[trigger] g[i]).1 * 100 <= u64::MAX,
        decreases groups@.len() - k,
    {
        if groups[k].1.checked_mul(100).is_none() {
            assert(g[k as int].1 * 100 > u64::MAX);
            assert(!group_percent_fits(*node));
            return None;
        }
        k = k + 1;
    }
    Some(build_size_breakdown_text(node))
}


/// Every item of positive size is among the positive items.
proof fn lemma_positive_kept(s: Seq<(Seq<char>, u64, bool)>)
    ensures
        forall|i: int| 0 <= i < s.len() && (#[trigger] s[i]).1 > 0 ==> exists|j: int|
            0 <= j < positive_items(s).len() && positive_items(s)[j] == s[i],
    decreases s.len(),
{
    if s.len() > 0 {
        let d = s.drop_last();
        lemma_positive_kept(d);
        let p = positive_items(d);
        assert forall|i: int| 0 <= i < s.len() && (#[trigger] s[i]).1 > 0 implies exists|j: int|
            0 <= j < positive_items(s).len() && positive_items(s)[j] == s[i] by {
            if i < d.len() {
                assert(d[i] == s[i]);
                let j = choose|j: int| 0 <= j < p.len() && p[j] == d[i];
                assert(positive_items(s)[j] == p[j]);
            } else {
                assert(positive_items(s)[p.len() as int] == s[i]);
            }
        }
    }
}

/// The size picture computes the percentage of the items it shows alone.
/// The first of them is the largest item, so every item's percentage fits
/// exactly when every shown item's does: the `requires` of
/// `build_treemap_visualization` asks no more than the items it shows.
pub proof fn lemma_treemap_fits_where_shown(t: TreeNode, order: Seq<usize>)
    requires
        is_stable_order(KeyModel::SizeDesc(item_sizes(positive_items(preorder(t)))), order),
    ensures
        percent_fits(preorder(t)) <==> percent_fits(
            first_in_order(positive_items(preorder(t)), order, TREEMAP_ITEMS as nat),
        ),
{
    let s = preorder(t);
    let pos = positive_items(s);
    let shown = first_in_order(pos, order, TREEMAP_ITEMS as nat);
    let v = item_sizes(pos);
    if percent_fits(s) {
        lemma_positive_fits(s);
        assert forall|k: int| 0 <= k < shown.len() implies (#[trigger] shown[k]).1 * 100 <= u64::MAX by {
            assert(shown[k] == pos[order[k] as int]);
        }
    }
    if percent_fits(shown) {
        lemma_positive_kept(s);
        assert forall|i: int| 0 <= i < s.len() implies (#[trigger] s[i]).1 * 100 <= u64::MAX by {
            if s[i].1 > 0 {
                let j = choose|j: int| 0 <= j < pos.len() && pos[j] == s[i];
                lemma_first_is_largest(v, order);
                assert(v[j] <= v[order[0] as int]);
                assert(shown[0] == pos[order[0] as int]);
            }
        }
    }
}

/// Every category is at most the summed size of all items.
proof fn lemma_groups_within(s: Seq<(Seq<char>, u64, bool)>)
    ensures
        forall|i: int| 0 <= i < group_sizes(s).len() ==> (#[trigger] group_sizes(s)[i]).1 <= size_sum(s),
    decreases s.len(),
{
    if s.len() > 0 {
        let d = s.drop_last();
        lemma_groups_within(d);
        let g = group_sizes(d);
        let c = category_of(s.last());
        lemma_category_index(g, c);
        assert forall|i: int| 0 <= i < group_sizes(s).len() implies (#[trigger] group_sizes(s)[i]).1 <= size_sum(s) by {
            if i < g.len() {
                assert(g[i].1 <= size_sum(d));
            }
        }
    }
}

/// The breakdown computes the percentage of the categories it shows alone.
/// The first of them is the largest category, so every category's
/// percentage fits exactly when every shown category's does: the
/// `requires` of `build_size_breakdown_text` asks no more than the
/// categories it shows.
pub proof fn lemma_breakdown_fits_where_shown(t: TreeNode, order: Seq<usize>)
    requires
        size_sum(preorder(t)) <= u64::MAX,
        is_stable_order(KeyModel::SizeDesc(group_size_keys(group_sizes(preorder(t)))), order),
    ensures
        group_percent_fits(t) <==> forall|k: int|
            0 <= k < first_groups(group_sizes(preorder(t)), order, BREAKDOWN_CATEGORIES as nat).len()
                ==> (#[trigger] first_groups(group_sizes(preorder(t)), order, BREAKDOWN_CATEGORIES as nat)[k]).1
                * 100 <= u64::MAX,
{
    let g = group_sizes(preorder(t));
    let shown = first_groups(g, order, BREAKDOWN_CATEGORIES as nat);
    let v = group_size_keys(g);
    lemma_groups_within(preorder(t));
    if group_percent_fits(t) {
        assert forall|k: int| 0 <= k < shown.len() implies (#[trigger] shown[k]).1 * 100 <= u64::MAX by {
            assert(shown[k] == g[order[k] as int]);
        }
    }
    if forall|k: int| 0 <= k < shown.len() ==> (#[trigger] shown[k]).1 * 100 <= u64::MAX {
        assert forall|i: int| 0 <= i < g.len() implies (#[trigger] g[i]).1 * 100 <= u64::MAX by {
            lemma_first_is_largest(v, order);
            assert(v[i] <= v[order[0] as int]);
            assert(shown[0] == g[order[0] as int]);
            assert(g[i].1 <= u64::MAX && g[order[0] as int].1 <= u64::MAX);
        }
    }
}


/// The positive items are items of the list, each of positive size, in
/// their order in the list.
proof fn lemma_positive_only(s: Seq<(Seq<char>, u64, bool)>)
    ensures
        forall|j: int| 0 <= j < positive_items(s).len() ==> (#[trigger] positive_items(s)[j]).1 > 0
            && s.contains(positive_items(s)[j]),
    decreases s.len(),
{
    if s.len() > 0 {
        let d = s.drop_last();
        lemma_positive_only(d);
        let p = positive_items(d);
        assert forall|j: int| 0 <= j < positive_items(s).len() implies (#[trigger] positive_items(s)[j]).1 > 0
            && s.contains(positive_items(s)[j]) by {
            if j < p.len() {
                assert(positive_items(s)[j] == p[j]);
                let i = choose|i: int| 0 <= i < d.len() && d[i] == p[j];
                assert(s[i] == d[i]);
            } else {
                assert(positive_items(s)[j] == s[s.len() - 1]);
            }
        }
    }
}

/// The size picture draws items of the subtree of positive size only, and
/// every item of positive size is one it can draw: each shown item is an
/// item of the subtree with a size above zero, and each item of the
/// subtree with a size above zero is among those it picks the largest
/// fifteen from, which are all shown where there are at most fifteen.
pub proof fn lemma_treemap_shows_positive_items(t: TreeNode, order: Seq<usize>)
    requires
        is_stable_order(KeyModel::SizeDesc(item_sizes(positive_items(preorder(t)))), order),
    ensures
        forall|k: int| 0 <= k < first_in_order(positive_items(preorder(t)), order, TREEMAP_ITEMS as nat).len()
            ==> (#[trigger] first_in_order(positive_items(preorder(t)), order, TREEMAP_ITEMS as nat)[k]).1 > 0
            && preorder(t).contains(first_in_order(positive_items(preorder(t)), order, TREEMAP_ITEMS as nat)[k]),
        forall|i: int| 0 <= i < preorder(t).len() && (#[trigger] preorder(t)[i]).1 > 0 ==> positive_items(
            preorder(t),
        ).contains(preorder(t)[i]),
        positive_items(preorder(t)).len() <= TREEMAP_ITEMS ==> forall|i: int|
            0 <= i < preorder(t).len() && (#[trigger] preorder(t)[i]).1 > 0 ==> first_in_order(
                positive_items(preorder(t)),
                order,
                TREEMAP_ITEMS as nat,
            ).contains(preorder(t)[i]),
{
    let s = preorder(t);
    let pos = positive_items(s);
    let shown = first_in_order(pos, order, TREEMAP_ITEMS as nat);
    lemma_positive_only(s);
    lemma_positive_kept(s);
    assert forall|k: int| 0 <= k < shown.len() implies (#[trigger] shown[k]).1 > 0 && s.contains(shown[k]) by {
        assert(shown[k] == pos[order[k] as int]);
    }
    assert forall|i: int| 0 <= i < s.len() && (#[trigger] s[i]).1 > 0 implies pos.contains(s[i]) by {
        let j = choose|j: int| 0 <= j < pos.len() && pos[j] == s[i];
    }
    if pos.len() <= TREEMAP_ITEMS {
        crate::order::lemma_sorted_distinct(KeyModel::SizeDesc(item_sizes(pos)), order);
        crate::order::lemma_covers_all(order, pos.len());
        assert forall|i: int| 0 <= i < s.len() && (#[trigger] s[i]).1 > 0 implies shown.contains(s[i]) by {
            let j = choose|j: int| 0 <= j < pos.len() && pos[j] == s[i];
            assert(crate::order::covered(order, j));
            let k = choose|k: int| 0 <= k < order.len() && #[trigger] order[k] as int == j;
            assert(shown[k] == pos[order[k] as int]);
        }
    }
}

/// The usage summary of a browsed tree opens with its total size, then its
/// number of files, then its number of directories, each on a line of its
/// own.
pub proof fn lemma_usage_counts(app: App)
    requires
        app.tree is Some,
    ensures
        ({
            let t = app.tree->0;
            let head = "Total Size: "@ + binary_size(t.total_size) + "\nFiles: "@ + decimal(t.total_files as nat)
                + "\nDirectories: "@ + decimal(t.total_dirs as nat) + "\n"@;
            usage_text(app).len() >= head.len() && usage_text(app).subrange(0, head.len() as int) == head
        }),
{
    let t = app.tree->0;
    let head = "Total Size: "@ + binary_size(t.total_size) + "\nFiles: "@ + decimal(t.total_files as nat)
        + "\nDirectories: "@ + decimal(t.total_dirs as nat) + "\n"@;
    let avg: u64 = if t.total_files > 0 {
        (t.total_size / t.total_files) as u64
    } else {
        0
    };
    let rest = "Largest Item: "@ + largest_text(preorder(t.root)) + "\nAverage File Size: "@ + binary_size(avg);
    reveal_strlit("\nLargest Item: ");
    reveal_strlit("Largest Item: ");
    reveal_strlit("\n");
    assert("\nLargest Item: "@ =~= "\n"@ + "Largest Item: "@);
    assert(usage_text(app) =~= head + rest);
    assert((head + rest).subrange(0, head.len() as int) =~= head);
}

} // verus!
