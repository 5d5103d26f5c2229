//! Rendering a scanned tree as text: a JSON summary or an indented tree.
use vstd::prelude::*;
use crate::paths::{display_name, entry_name};
use crate::text::{
    binary_size, decimal, pad_left, repeat, format_binary_size, push_str, push_decimal,
    push_padded_left, push_repeat,
};
use crate::tree::{FileTree, TreeNode, sat};
use crate::scanner::{cumulated, lemma_cumulated_dominates};

verus! {

/// A way of rendering a scanned tree as text.
pub trait OutputFormatter {
    fn format(&self, tree: &FileTree) -> String;
}

/// Renders the totals of a tree as a JSON object.
pub struct JsonFormatter;

/// Renders a tree as indented lines of size, share and name.
pub struct TreeFormatter {
    color: bool,
    max_depth: Option<usize>,
}

impl TreeFormatter {
    pub fn new(color: bool) -> (r: Self)
        ensures
            r.color() == color,
            r.max_depth() is None,
    {
        TreeFormatter { color, max_depth: None }
    }

    /// A formatter that shows nodes down to `max_depth` levels below the
    /// root, or all of them where it is `None`.
    pub fn with_max_depth(color: bool, max_depth: Option<usize>) -> (r: Self)
        ensures
            r.color() == color,
            r.max_depth() == max_depth,
    {
        TreeFormatter { color, max_depth }
    }

    pub closed spec fn color(&self) -> bool {
        self.color
    }

    pub closed spec fn max_depth(&self) -> Option<usize> {
        self.max_depth
    }
}

/// When the human-readable output is colored.
#[derive(Debug, Clone, Copy, PartialEq, Eq, Structural)]
pub enum ColorMode {
    /// Where standard output is a terminal and `NO_COLOR` is not set.
    Auto,
    Always,
    Never,
}

/// Whether output is colored under `mode`, given whether standard output
/// is a terminal and whether the `NO_COLOR` variable is set.
pub fn color_enabled(mode: ColorMode, stdout_is_terminal: bool, no_color_set: bool) -> (r: bool)
    ensures
        r == match mode {
            ColorMode::Always => true,
            ColorMode::Never => false,
            ColorMode::Auto => stdout_is_terminal && !no_color_set,
        },
{
    match mode {
        ColorMode::Always => true,
        ColorMode::Never => false,
        ColorMode::Auto => stdout_is_terminal && !no_color_set,
    }
}

/// A JSON object key that `serde_json` writes as it is: no control
/// character, quote or backslash, which it would escape.
pub open spec fn plain_key(k: Seq<char>) -> bool {
    forall|i: int| 0 <= i < k.len() ==> (#[trigger] k[i] as u32) >= 0x20 && k[i] != '"' && k[i] != '\\'
}

/// The line of one field of a pretty object: two spaces, the quoted key, a
/// colon and the number in decimal.
pub open spec fn json_field(f: (Seq<char>, u64)) -> Seq<char> {
    "  \""@ + f.0 + "\": "@ + decimal(f.1 as nat)
}

/// The field lines, separated by a comma and a line break.
pub open spec fn json_fields(fs: Seq<(Seq<char>, u64)>) -> Seq<char>
    decreases fs.len(),
{
    if fs.len() == 0 {
        Seq::empty()
    } else if fs.len() == 1 {
        json_field(fs[0])
    } else {
        json_fields(fs.drop_last()) + ",\n"@ + json_field(fs.last())
    }
}

/// The text that `serde_json::to_string_pretty` writes for an object of
/// these number fields, in order: `{}` when there are none, else the
/// field lines between a line with `{` and a line with `}`.
pub open spec fn pretty_object(fs: Seq<(Seq<char>, u64)>) -> Seq<char> {
    if fs.len() == 0 {
        "{}"@
    } else {
        "{\n"@ + json_fields(fs) + "\n}"@
    }
}

/// The fields of the JSON summary of a tree, in order.
pub open spec fn totals_fields(total_size: u64, total_files: u64, total_dirs: u64) -> Seq<(Seq<char>, u64)> {
    seq![("total_size"@, total_size), ("total_files"@, total_files), ("total_dirs"@, total_dirs)]
}

/// The pretty JSON text of the totals.
pub open spec fn totals_json(total_size: u64, total_files: u64, total_dirs: u64) -> Seq<char> {
    pretty_object(totals_fields(total_size, total_files, total_dirs))
}

/// The fields as key texts and numbers.
pub open spec fn fields_view(fs: Seq<(String, u64)>) -> Seq<(Seq<char>, u64)> {
    fs.map_values(|f: (String, u64)| (f.0@, f.1))
}

/// The declared `serde_json::Error`, the error of serialization.
#[verifier::external_type_specification]
#[verifier::external_body]
pub struct ExSerdeJsonError(serde_json::Error);

/// Calls `serde_json::to_string_pretty` on a JSON object built from the
/// fields, in order (the crate's `preserve_order` feature, which this crate
/// enables, keeps object fields in insertion order; distinct keys are
/// never merged). Its pretty formatter writes `{}` for an empty object;
/// otherwise it opens the object, writes each field on a line of its own
/// indented by two spaces as `"key": value`, separates the fields by
/// commas and closes the object on a line of its own. Keys without
/// control characters, quotes or backslashes are written unescaped, and
/// numbers in decimal. Serialization fails only where a `Serialize` impl
/// fails or a map has keys that are not strings; a `Value` object of text
/// keys and numbers does neither, so the call succeeds.
#[verifier::external_body]
fn object_to_json(fields: &Vec<(String, u64)>) -> (r: Result<String, serde_json::Error>)
    requires
        forall|i: int, j: int| 0 <= i < j < fields@.len() ==> (#[trigger] fields@[i]).0@ != (#[trigger] fields@[j]).0@,
        forall|i: int| 0 <= i < fields@.len() ==> plain_key((#[trigger] fields@[i]).0@),
    ensures
        r is Ok,
        r matches Ok(s) ==> s@ == pretty_object(fields_view(fields@)),
{
    let mut object = serde_json::Map::new();
    for (key, value) in fields.iter() {
        object.insert(key.clone(), serde_json::Value::from(*value));
    }
    serde_json::to_string_pretty(&serde_json::Value::Object(object))
}

impl OutputFormatter for JsonFormatter {
    /// The totals as pretty JSON. Were serialization to fail, the text
    /// would be `{}`; it does not fail on these totals.
    fn format(&self, tree: &FileTree) -> (r: String)
        ensures
            r@ == totals_json(tree.total_size, tree.total_files, tree.total_dirs),
    {
        let mut fields: Vec<(String, u64)> = Vec::new();
        fields.push(("total_size".to_owned(), tree.total_size));
        fields.push(("total_files".to_owned(), tree.total_files));
        fields.push(("total_dirs".to_owned(), tree.total_dirs));
        proof {
            reveal_strlit("total_size");
            reveal_strlit("total_files");
            reveal_strlit("total_dirs");
            assert(fields_view(fields@) =~= totals_fields(tree.total_size, tree.total_files, tree.total_dirs));
            assert forall|i: int| 0 <= i < fields@.len() implies plain_key((#[trigger] fields@[i]).0@) by {
                assert(fields_view(fields@)[i].0 == fields@[i].0@);
            }
            assert forall|i: int, j: int| 0 <= i < j < fields@.len() implies (#[trigger] fields@[i]).0@ != (#[trigger] fields@[j]).0@ by {
                assert(fields_view(fields@)[i].0 == fields@[i].0@);
                assert(fields_view(fields@)[j].0 == fields@[j].0@);
                assert(fields@[i].0@.len() != fields@[j].0@.len() || fields@[i].0@[6] != fields@[j].0@[6]);
            }
        }
        match object_to_json(&fields) {
            Ok(s) => s,
            Err(_) => "{}".to_owned(),
        }
    }
}

/// The share of `size` in `parent_size`, in whole percent; zero where the
/// parent is empty.
pub open spec fn percent_of(size: u64, parent_size: u64) -> nat {
    if parent_size == 0 {
        0
    } else {
        sat(size as nat * 100) as nat / parent_size as nat
    }
}

/// The name of a node as shown: directories end in `/`, and in color
/// they are cyan.
pub open spec fn shown_name(t: TreeNode, color: bool) -> Seq<char> {
    let name = display_name(t.entry.path@);
    if t.entry.is_directory {
        if color {
            "\x1b[36m"@ + name + "/"@ + "\x1b[0m"@
        } else {
            name + "/"@
        }
    } else {
        name
    }
}

/// The line of a node at `depth` (at least one) below a parent of
/// `parent_size` bytes.
pub open spec fn node_line(t: TreeNode, color: bool, depth: nat, parent_size: u64) -> Seq<char> {
    repeat("  "@, (depth - 1) as nat) + pad_left(binary_size(t.entry.size), 10) + " "@ + pad_left(
        decimal(percent_of(t.entry.size, parent_size)),
        3,
    ) + "%  "@ + shown_name(t, color) + "\n"@
}

/// Whether nodes at `depth` are shown.
pub open spec fn depth_shown(max_depth: Option<usize>, depth: nat) -> bool {
    match max_depth {
        None => true,
        Some(m) => depth <= m,
    }
}

/// The depth of the children of a node at `depth`; it stops growing at
/// the largest `usize`, a depth that no tree in memory reaches.
pub open spec fn next_depth(depth: nat) -> nat {
    if depth < usize::MAX {
        depth + 1
    } else {
        depth
    }
}

/// The lines of a subtree whose root is at `depth`: the root's line unless
/// it is the tree's root or too deep, then the children's subtrees in order.
pub open spec fn node_lines(
    t: TreeNode,
    color: bool,
    max_depth: Option<usize>,
    depth: nat,
    parent_size: u64,
) -> Seq<char>
    decreases t,
{
    (if depth > 0 && depth_shown(max_depth, depth) {
        node_line(t, color, depth, parent_size)
    } else {
        Seq::empty()
    }) + (if depth_shown(max_depth, next_depth(depth)) {
        children_lines(t, color, max_depth, next_depth(depth), t.children@.len())
    } else {
        Seq::empty()
    })
}

/// The lines of the subtrees of the first `k` children.
pub open spec fn children_lines(
    t: TreeNode,
    color: bool,
    max_depth: Option<usize>,
    depth: nat,
    k: nat,
) -> Seq<char>
    decreases t, k,
{
    if k == 0 || k > t.children@.len() {
        Seq::empty()
    } else {
        children_lines(t, color, max_depth, depth, (k - 1) as nat) + node_lines(
            t.children@[k - 1],
            color,
            max_depth,
            depth,
            t.entry.size,
        )
    }
}

/// The whole text of the tree rendering.
pub open spec fn tree_text(tree: FileTree, color: bool, max_depth: Option<usize>) -> Seq<char> {
    "Path: "@ + tree.root.entry.path@ + "\n"@ + "Used: "@ + binary_size(tree.total_size)
        + " · "@ + decimal(tree.total_files as nat) + " files · "@ + decimal(
        tree.total_dirs as nat,
    ) + " dirs\n\n"@ + "SIZE       %       NAME\n"@ + node_lines(
        tree.root,
        color,
        max_depth,
        0,
        tree.total_size,
    )
}

impl OutputFormatter for TreeFormatter {
    fn format(&self, tree: &FileTree) -> (r: String)
        ensures
            r@ == tree_text(*tree, self.color(), self.max_depth()),
    {
        let mut output = String::new();
        push_str(&mut output, "Path: ");
        push_str(&mut output, tree.root.entry.path.as_str());
        push_str(&mut output, "\n");
        push_str(&mut output, "Used: ");
        let used = format_binary_size(tree.total_size);
        push_str(&mut output, used.as_str());
        push_str(&mut output, " · ");
        push_decimal(&mut output, tree.total_files);
        push_str(&mut output, " files · ");
        push_decimal(&mut output, tree.total_dirs);
        push_str(&mut output, " dirs\n\n");
        push_str(&mut output, "SIZE       %       NAME\n");
        self.format_node(&tree.root, 0, tree.total_size, &mut output);
        assert(output@ =~= tree_text(*tree, self.color, self.max_depth));
        output
    }
}

/// The share of `size` in `parent_size`, in whole percent.
pub fn percent(size: u64, parent_size: u64) -> (r: u64)
    ensures
        r == percent_of(size, parent_size),
{
    if parent_size == 0 {
        return 0;
    }
    let scaled = match size.checked_mul(100) {
        Some(v) => v,
        None => u64::MAX,
    };
    scaled / parent_size
}

impl TreeFormatter {
    #[verifier::spinoff_prover]
    #[verifier::rlimit(30)]
    fn push_node_line(&self, node: &TreeNode, depth: usize, parent_size: u64, output: &mut String)
        requires
            depth > 0,
        ensures
            final(output)@ == old(output)@ + node_line(*node, self.color, depth as nat, parent_size),
    {
        push_repeat(output, "  ", (depth - 1) as u64);
        let size_str = format_binary_size(node.entry.size);
        push_padded_left(output, size_str.as_str(), 10);
        push_str(output, " ");
        let pct = crate::text::decimal_string(percent(node.entry.size, parent_size));
        push_padded_left(output, pct.as_str(), 3);
        push_str(output, "%  ");
        let name = entry_name(node.entry.path.as_str());
        if node.entry.is_directory {
            if self.color {
                push_str(output, "\x1b[36m");
                push_str(output, name.as_str());
                push_str(output, "/");
                push_str(output, "\x1b[0m");
            } else {
                push_str(output, name.as_str());
                push_str(output, "/");
            }
        } else {
            push_str(output, name.as_str());
        }
        push_str(output, "\n");
        assert(final(output)@ =~= old(output)@ + node_line(*node, self.color, depth as nat, parent_size));
    }

    fn shows(&self, depth: usize) -> (r: bool)
        ensures
            r == depth_shown(self.max_depth, depth as nat),
    {
        match self.max_depth {
            None => true,
            Some(m) => depth <= m,
        }
    }

    fn format_node(&self, node: &TreeNode, depth: usize, parent_size: u64, output: &mut String)
        ensures
            final(output)@ == old(output)@ + node_lines(
                *node,
                self.color,
                self.max_depth,
                depth as nat,
                parent_size,
            ),
        decreases *node,
    {
        let ghost start = output@;
        if depth > 0 && self.shows(depth) {
            self.push_node_line(node, depth, parent_size, output);
        }
        let ghost after_line = output@;
        let child_depth = if depth < usize::MAX {
            depth + 1
        } else {
            depth
        };
        if self.shows(child_depth) {
            let n = node.children.len();
            let mut k: usize = 0;
            while k < n
                invariant
                    n == node.children@.len(),
                    k <= n,
                    child_depth == next_depth(depth as nat),
                    output@ == after_line + children_lines(
                        *node,
                        self.color,
                        self.max_depth,
                        child_depth as nat,
                        k as nat,
                    ),
                decreases n - k,
            {
                self.format_node(&node.children[k], child_depth, node.entry.size, output);
                k = k + 1;
                assert(output@ =~= after_line + children_lines(
                    *node,
                    self.color,
                    self.max_depth,
                    child_depth as nat,
                    k as nat,
                ));
            }
        }
        assert(output@ =~= start + node_lines(
            *node,
            self.color,
            self.max_depth,
            depth as nat,
            parent_size,
        ));
    }
}

proof fn lemma_share_bounded(size: u64, parent_size: u64)
    requires
        size <= parent_size,
    ensures
        percent_of(size, parent_size) <= 100,
{
    if parent_size > 0 {
        let scaled = sat(size as nat * 100) as nat;
        assert(scaled <= size as nat * 100);
        assert(scaled / (parent_size as nat) <= 100) by (nonlinear_arith)
            requires
                scaled <= size as nat * 100,
                size <= parent_size,
                parent_size > 0,
        ;
    }
}

/// Where sizes are cumulative, as in a scanned tree, no child's share of
/// its parent is more than a hundred percent.
pub proof fn lemma_shares_at_most_hundred(old: TreeNode, new: TreeNode)
    requires
        cumulated(old, new),
    ensures
        forall|k: int|
            0 <= k < new.children@.len() ==> percent_of(
                (#[trigger] new.children@[k]).entry.size,
                new.entry.size,
            ) <= 100,
{
    lemma_cumulated_dominates(old, new);
    assert forall|k: int| 0 <= k < new.children@.len() implies percent_of(
        (#[trigger] new.children@[k]).entry.size,
        new.entry.size,
    ) <= 100 by {
        lemma_share_bounded(new.children@[k].entry.size, new.entry.size);
    }
}


/// The rendering of a tree opens with its path, then a line of its total
/// size, its number of files and its number of directories, in that order.
pub proof fn lemma_tree_text_counts(tree: FileTree, color: bool, max_depth: Option<usize>)
    ensures
        ({
            let head = "Path: "@ + tree.root.entry.path@ + "\nUsed: "@ + binary_size(tree.total_size) + " · "@
                + decimal(tree.total_files as nat) + " files · "@ + decimal(tree.total_dirs as nat)
                + " dirs\n"@;
            tree_text(tree, color, max_depth).len() >= head.len() && tree_text(tree, color, max_depth).subrange(
                0,
                head.len() as int,
            ) == head
        }),
{
    let head = "Path: "@ + tree.root.entry.path@ + "\nUsed: "@ + binary_size(tree.total_size) + " · "@
        + decimal(tree.total_files as nat) + " files · "@ + decimal(tree.total_dirs as nat) + " dirs\n"@;
    let rest = "\n"@ + "SIZE       %       NAME\n"@ + node_lines(tree.root, color, max_depth, 0, tree.total_size);
    reveal_strlit("\n");
    reveal_strlit("Used: ");
    reveal_strlit("\nUsed: ");
    reveal_strlit(" dirs\n\n");
    reveal_strlit(" dirs\n");
    assert("\nUsed: "@ =~= "\n"@ + "Used: "@);
    assert(" dirs\n\n"@ =~= " dirs\n"@ + "\n"@);
    assert(tree_text(tree, color, max_depth) =~= head + rest);
    assert((head + rest).subrange(0, head.len() as int) =~= head);
}

} // verus!
