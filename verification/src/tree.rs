//! The scanned file tree: entries, nodes that own their children, and the
//! tree with its totals.
use vstd::prelude::*;
use crate::order::{KeyModel, SortKeys, is_stable_order, distinct, in_range, sort_positions, permute,
    lemma_sorted_distinct};

verus! {

/// One file or directory found by a scan.
#[derive(Debug)]
pub struct FileEntry {
    pub path: String,
    pub size: u64,
    pub is_directory: bool,
    pub inode: u64,
    pub device: u64,
    pub file_count: u64,
    pub dir_count: u64,
}

/// An entry with its path as a character sequence.
pub struct EntryModel {
    pub path: Seq<char>,
    pub size: u64,
    pub is_directory: bool,
    pub inode: u64,
    pub device: u64,
    pub file_count: u64,
    pub dir_count: u64,
}

impl View for FileEntry {
    type V = EntryModel;

    open spec fn view(&self) -> EntryModel {
        EntryModel {
            path: self.path@,
            size: self.size,
            is_directory: self.is_directory,
            inode: self.inode,
            device: self.device,
            file_count: self.file_count,
            dir_count: self.dir_count,
        }
    }
}

impl Clone for FileEntry {
    fn clone(&self) -> (r: Self)
        ensures
            r == *self,
    {
        FileEntry {
            path: self.path.clone(),
            size: self.size,
            is_directory: self.is_directory,
            inode: self.inode,
            device: self.device,
            file_count: self.file_count,
            dir_count: self.dir_count,
        }
    }
}

/// The entry that `FileEntry::new` makes: no inode or device, and counted
/// as one directory or one file.
pub open spec fn new_entry_model(path: Seq<char>, size: u64, is_directory: bool) -> EntryModel {
    EntryModel {
        path,
        size,
        is_directory,
        inode: 0,
        device: 0,
        file_count: if is_directory { 0 } else { 1 },
        dir_count: if is_directory { 1 } else { 0 },
    }
}

impl FileEntry {
    pub fn new(path: String, size: u64, is_directory: bool) -> (r: Self)
        ensures
            r@ == new_entry_model(path@, size, is_directory),
    {
        FileEntry {
            path,
            size,
            is_directory,
            inode: 0,
            device: 0,
            file_count: if is_directory { 0 } else { 1 },
            dir_count: if is_directory { 1 } else { 0 },
        }
    }
}

/// A node of the tree: an entry and the nodes below it, which it owns.
#[derive(Debug)]
pub struct TreeNode {
    pub entry: FileEntry,
    pub children: Vec<TreeNode>,
}

/// The largest value of a `u64` below or at `x`: where a saturating sum of
/// naturals ends.
pub open spec fn sat(x: nat) -> u64 {
    if x > u64::MAX {
        u64::MAX
    } else {
        x as u64
    }
}

/// The sum of the entry sizes in a subtree, without bound.
pub open spec fn subtree_size(t: TreeNode) -> nat
    decreases t,
{
    t.entry.size as nat + children_size(t, t.children@.len())
}

/// The sum of `subtree_size` over the first `k` children.
pub open spec fn children_size(t: TreeNode, k: nat) -> nat
    decreases t, k,
{
    if k == 0 || k > t.children@.len() {
        0
    } else {
        children_size(t, (k - 1) as nat) + subtree_size(t.children@[k - 1])
    }
}

/// The number of entries in a subtree that are not directories.
pub open spec fn subtree_files(t: TreeNode) -> nat
    decreases t,
{
    (if t.entry.is_directory { 0nat } else { 1nat }) + children_files(t, t.children@.len())
}

pub open spec fn children_files(t: TreeNode, k: nat) -> nat
    decreases t, k,
{
    if k == 0 || k > t.children@.len() {
        0
    } else {
        children_files(t, (k - 1) as nat) + subtree_files(t.children@[k - 1])
    }
}

/// The number of entries in a subtree that are directories.
pub open spec fn subtree_dirs(t: TreeNode) -> nat
    decreases t,
{
    (if t.entry.is_directory { 1nat } else { 0nat }) + children_dirs(t, t.children@.len())
}

pub open spec fn children_dirs(t: TreeNode, k: nat) -> nat
    decreases t, k,
{
    if k == 0 || k > t.children@.len() {
        0
    } else {
        children_dirs(t, (k - 1) as nat) + subtree_dirs(t.children@[k - 1])
    }
}

/// The sizes of the children of a node, in order.
pub open spec fn child_sizes(t: TreeNode) -> Seq<u64> {
    t.children@.map_values(|c: TreeNode| c.entry.size)
}

/// `new` is `old` with the children of every node put in the stable order
/// of decreasing size: the children of `new` are those of `old`, taken in
/// that order, each sorted the same way.
pub open spec fn sorted_from(old: TreeNode, new: TreeNode) -> bool
    decreases old,
{
    &&& new.entry == old.entry
    &&& new.children@.len() == old.children@.len()
    &&& exists|p: Seq<usize>|
        #[trigger] is_stable_order(KeyModel::SizeDesc(child_sizes(old)), p) && forall|k: int|
            0 <= k < old.children@.len() ==> sorted_from(
                old.children@[p[k] as int],
                #[trigger] new.children@[k],
            )
}

/// In every node, no child is smaller than a child after it.
pub open spec fn size_ordered(t: TreeNode) -> bool
    decreases t,
{
    &&& forall|a: int, b: int|
        0 <= a < b < t.children@.len() ==> #[trigger] t.children@[a].entry.size
            >= #[trigger] t.children@[b].entry.size
    &&& forall|k: int| 0 <= k < t.children@.len() ==> size_ordered(#[trigger] t.children@[k])
}

impl TreeNode {
    pub fn new(entry: FileEntry) -> (r: Self)
        ensures
            r.entry == entry,
            r.children@.len() == 0,
    {
        TreeNode { entry, children: Vec::new() }
    }

    pub fn add_child(&mut self, child: TreeNode)
        ensures
            final(self).entry == old(self).entry,
            final(self).children@ == old(self).children@.push(child),
    {
        self.children.push(child);
    }

    /// Puts the children of this node, and of every node below it, in
    /// order of decreasing size; children of equal size keep their order.
    pub fn sort_children_by_size(&mut self)
        ensures
            sorted_from(*old(self), *final(self)),
        decreases *old(self),
    {
        let n = self.children.len();
        let mut sizes: Vec<u64> = Vec::new();
        let mut k: usize = 0;
        while k < n
            invariant
                n == self.children@.len(),
                *self == *old(self),
                k <= n,
                sizes@ == child_sizes(*old(self)).subrange(0, k as int),
            decreases n - k,
        {
            sizes.push(self.children[k].entry.size);
            k = k + 1;
            assert(sizes@ =~= child_sizes(*old(self)).subrange(0, k as int));
        }
        assert(sizes@ =~= child_sizes(*old(self)));
        let keys = SortKeys::SizeDesc(sizes);
        let perm = sort_positions(&keys);
        let mut kids: Vec<TreeNode> = Vec::new();
        std::mem::swap(&mut kids, &mut self.children);
        let sorted = permute(kids, &perm);
        self.children = sorted;
        let ghost permuted = self.children@;
        let mut k: usize = 0;
        while k < n
            invariant
                n == self.children@.len(),
                n == old(self).children@.len(),
                perm@.len() == n,
                forall|m: int| 0 <= m < n ==> #[trigger] permuted[m] == old(self).children@[perm@[m] as int],
                forall|m: int| 0 <= m < n ==> perm@[m] < n,
                self.entry == old(self).entry,
                k <= n,
                forall|m: int| k <= m < n ==> #[trigger] self.children@[m] == permuted[m],
                forall|m: int|
                    0 <= m < k ==> sorted_from(
                        old(self).children@[perm@[m] as int],
                        #[trigger] self.children@[m],
                    ),
            decreases n - k,
        {
            proof {
                assert(perm@[k as int] < n);
                assert(decreases_to!(*old(self) => old(self).children));
                assert(decreases_to!(old(self).children => old(self).children@));
                assert(decreases_to!(old(self).children@ => old(self).children@[perm@[k as int] as int]));
            }
            self.children[k].sort_children_by_size();
            k = k + 1;
        }
        proof {
            assert(is_stable_order(KeyModel::SizeDesc(child_sizes(*old(self))), perm@));
        }
    }
}

/// A scanned tree and its totals.
#[derive(Debug)]
pub struct FileTree {
    pub root: TreeNode,
    pub total_size: u64,
    pub total_files: u64,
    pub total_dirs: u64,
}

impl FileTree {
    pub fn new(root_path: String) -> (r: Self)
        ensures
            r.root.entry@ == new_entry_model(root_path@, 0, true),
            r.root.children@.len() == 0,
            r.total_size == 0,
            r.total_files == 0,
            r.total_dirs == 0,
    {
        let root_entry = FileEntry::new(root_path, 0, true);
        FileTree { root: TreeNode::new(root_entry), total_size: 0, total_files: 0, total_dirs: 0 }
    }

    /// Sorts every level of the tree by decreasing size.
    pub fn sort_by_size(&mut self)
        ensures
            sorted_from(old(self).root, final(self).root),
            final(self).total_size == old(self).total_size,
            final(self).total_files == old(self).total_files,
            final(self).total_dirs == old(self).total_dirs,
    {
        self.root.sort_children_by_size();
    }
}

/// The sum of a sequence of naturals.
pub open spec fn nat_sum(a: Seq<nat>) -> nat
    decreases a.len(),
{
    if a.len() == 0 {
        0
    } else {
        nat_sum(a.drop_last()) + a.last()
    }
}

proof fn lemma_sum_remove(a: Seq<nat>, m: int)
    requires
        0 <= m < a.len(),
    ensures
        nat_sum(a) == nat_sum(a.remove(m)) + a[m],
    decreases a.len(),
{
    if m == a.len() - 1 {
        assert(a.remove(m) =~= a.drop_last());
    } else {
        lemma_sum_remove(a.drop_last(), m);
        assert(a.remove(m).drop_last() =~= a.drop_last().remove(m));
        assert(a.remove(m).last() == a.last());
    }
}

/// Summing in any order gives the same sum.
pub proof fn lemma_sum_permuted(a: Seq<nat>, p: Seq<usize>)
    requires
        p.len() == a.len(),
        in_range(p, 0, a.len() as int),
        distinct(p),
    ensures
        nat_sum(p.map_values(|i: usize| a[i as int])) == nat_sum(a),
    decreases a.len(),
{
    if a.len() > 0 {
        let n = a.len();
        let m = p[n - 1] as int;
        let a2 = a.remove(m);
        let rest = p.drop_last();
        let p2 = rest.map_values(|x: usize| if x > m { (x - 1) as usize } else { x });
        assert forall|k: int| 0 <= k < rest.len() implies #[trigger] rest[k] != m by {
            assert(p[k] != p[n - 1]);
        }
        assert forall|k: int| 0 <= k < p2.len() implies 0 <= #[trigger] p2[k] < a2.len() by {
            assert(rest[k] != m);
        }
        assert forall|x: int, y: int| 0 <= x < p2.len() && 0 <= y < p2.len() && x != y implies #[trigger] p2[x] != #[trigger] p2[y] by {
            assert(p[x] != p[y]);
            assert(rest[x] != m && rest[y] != m);
        }
        lemma_sum_permuted(a2, p2);
        lemma_sum_remove(a, m);
        let b = p.map_values(|i: usize| a[i as int]);
        assert(p2.map_values(|i: usize| a2[i as int]) =~= b.drop_last()) by {
            assert forall|k: int| 0 <= k < p2.len() implies p2.map_values(|i: usize| a2[i as int])[k] == b.drop_last()[k] by {
                assert(rest[k] != m);
                if rest[k] > m {
                    assert(a2[rest[k] - 1] == a[rest[k] as int]);
                } else {
                    assert(a2[rest[k] as int] == a[rest[k] as int]);
                }
            }
        }
        assert(b.last() == a[m]);
    }
}

/// The subtree sizes of the first `k` children.
pub open spec fn child_subtree_sizes(t: TreeNode, k: nat) -> Seq<nat> {
    Seq::new(k, |j: int| subtree_size(t.children@[j]))
}

pub open spec fn child_subtree_files(t: TreeNode, k: nat) -> Seq<nat> {
    Seq::new(k, |j: int| subtree_files(t.children@[j]))
}

pub open spec fn child_subtree_dirs(t: TreeNode, k: nat) -> Seq<nat> {
    Seq::new(k, |j: int| subtree_dirs(t.children@[j]))
}

proof fn lemma_children_sums(t: TreeNode, k: nat)
    requires
        k <= t.children@.len(),
    ensures
        children_size(t, k) == nat_sum(child_subtree_sizes(t, k)),
        children_files(t, k) == nat_sum(child_subtree_files(t, k)),
        children_dirs(t, k) == nat_sum(child_subtree_dirs(t, k)),
    decreases k,
{
    if k > 0 {
        lemma_children_sums(t, (k - 1) as nat);
        assert(child_subtree_sizes(t, k).drop_last() =~= child_subtree_sizes(t, (k - 1) as nat));
        assert(child_subtree_files(t, k).drop_last() =~= child_subtree_files(t, (k - 1) as nat));
        assert(child_subtree_dirs(t, k).drop_last() =~= child_subtree_dirs(t, (k - 1) as nat));
    }
}

/// Sorting keeps what a subtree holds: its summed size and its numbers of
/// files and of directories.
pub proof fn lemma_sort_keeps_totals(old: TreeNode, new: TreeNode)
    requires
        sorted_from(old, new),
    ensures
        subtree_size(new) == subtree_size(old),
        subtree_files(new) == subtree_files(old),
        subtree_dirs(new) == subtree_dirs(old),
    decreases old,
{
    let n = old.children@.len();
    let p = choose|p: Seq<usize>|
        #[trigger] is_stable_order(KeyModel::SizeDesc(child_sizes(old)), p) && forall|k: int|
            0 <= k < old.children@.len() ==> sorted_from(
                old.children@[p[k] as int],
                #[trigger] new.children@[k],
            );
    assert(child_sizes(old).len() == n);
    lemma_sorted_distinct(KeyModel::SizeDesc(child_sizes(old)), p);
    assert forall|k: int| 0 <= k < n implies {
        &&& subtree_size(#[trigger] new.children@[k]) == subtree_size(old.children@[p[k] as int])
        &&& subtree_files(new.children@[k]) == subtree_files(old.children@[p[k] as int])
        &&& subtree_dirs(new.children@[k]) == subtree_dirs(old.children@[p[k] as int])
    } by {
        assert(sorted_from(old.children@[p[k] as int], new.children@[k]));
        lemma_sort_keeps_totals(old.children@[p[k] as int], new.children@[k]);
    }
    lemma_children_sums(old, n);
    lemma_children_sums(new, n);
    let a = child_subtree_sizes(old, n);
    let af = child_subtree_files(old, n);
    let ad = child_subtree_dirs(old, n);
    lemma_sum_permuted(a, p);
    lemma_sum_permuted(af, p);
    lemma_sum_permuted(ad, p);
    assert(child_subtree_sizes(new, n) =~= p.map_values(|i: usize| a[i as int]));
    assert(child_subtree_files(new, n) =~= p.map_values(|i: usize| af[i as int]));
    assert(child_subtree_dirs(new, n) =~= p.map_values(|i: usize| ad[i as int]));
}

/// After sorting, the children of every node come in order of decreasing
/// size.
pub proof fn lemma_sorted_is_ordered(old: TreeNode, new: TreeNode)
    requires
        sorted_from(old, new),
    ensures
        size_ordered(new),
    decreases old,
{
    let n = old.children@.len();
    let keys = KeyModel::SizeDesc(child_sizes(old));
    let p = choose|p: Seq<usize>|
        #[trigger] is_stable_order(keys, p) && forall|k: int|
            0 <= k < old.children@.len() ==> sorted_from(
                old.children@[p[k] as int],
                #[trigger] new.children@[k],
            );
    assert forall|k: int| 0 <= k < n implies {
        &&& (#[trigger] new.children@[k]).entry == old.children@[p[k] as int].entry
        &&& size_ordered(new.children@[k])
    } by {
        assert(sorted_from(old.children@[p[k] as int], new.children@[k]));
        lemma_sorted_is_ordered(old.children@[p[k] as int], new.children@[k]);
    }
    assert forall|a: int, b: int| 0 <= a < b < new.children@.len() implies #[trigger] new.children@[a].entry.size >= #[trigger] new.children@[b].entry.size by {
        assert(crate::order::precedes(keys, p[a] as int, p[b] as int));
        assert(new.children@[a].entry == old.children@[p[a] as int].entry);
        assert(new.children@[b].entry == old.children@[p[b] as int].entry);
    }
}

/// `a` and `b` hold the same entries in the same shape: equal entries at
/// the root, and as many children, each the same tree as its counterpart.
pub open spec fn same_tree(a: TreeNode, b: TreeNode) -> bool
    decreases a,
{
    &&& a.entry == b.entry
    &&& a.children@.len() == b.children@.len()
    &&& forall|k: int| 0 <= k < a.children@.len() ==> same_tree(a.children@[k], #[trigger] b.children@[k])
}

/// Sorting a tree whose children already come in order of decreasing size,
/// in every node, changes nothing.
pub proof fn lemma_sort_keeps_ordered(old: TreeNode, new: TreeNode)
    requires
        sorted_from(old, new),
        size_ordered(old),
    ensures
        same_tree(old, new),
    decreases old,
{
    let n = old.children@.len();
    let keys = KeyModel::SizeDesc(child_sizes(old));
    let p = choose|p: Seq<usize>|
        #[trigger] is_stable_order(keys, p) && forall|k: int|
            0 <= k < old.children@.len() ==> sorted_from(
                old.children@[p[k] as int],
                #[trigger] new.children@[k],
            );
    assert(n == old.children.len());
    let id = Seq::new(n, |i: int| i as usize);
    assert(is_stable_order(keys, id)) by {
        assert forall|a: int, b: int| 0 <= a < b < id.len() implies crate::order::precedes(
            keys,
            #[trigger] id[a] as int,
            #[trigger] id[b] as int,
        ) by {
            assert(id[a] as int == a && id[b] as int == b);
            assert(child_sizes(old)[a] == old.children@[a].entry.size);
            assert(child_sizes(old)[b] == old.children@[b].entry.size);
            assert(old.children@[a].entry.size >= old.children@[b].entry.size);
        }
    }
    crate::order::lemma_stable_order_unique(keys, p, id);
    assert forall|k: int| 0 <= k < n implies same_tree(old.children@[k], #[trigger] new.children@[k]) by {
        assert(p[k] == id[k]);
        assert(id[k] as int == k);
        assert(sorted_from(old.children@[p[k] as int], new.children@[k]));
        assert(size_ordered(old.children@[k]));
        lemma_sort_keeps_ordered(old.children@[k], new.children@[k]);
    }
}

/// Sorting twice gives the tree that sorting once gave.
pub proof fn lemma_sort_twice(t: TreeNode, once: TreeNode, twice: TreeNode)
    requires
        sorted_from(t, once),
        sorted_from(once, twice),
    ensures
        same_tree(once, twice),
{
    lemma_sorted_is_ordered(t, once);
    lemma_sort_keeps_ordered(once, twice);
}


/// `b` holds the nodes of `a`, with the children of each node possibly in
/// another order: equal entries at the root, and child `k` of `b` is of the
/// same kind as child `p[k]` of `a`, for an arrangement `p` of the children.
pub open spec fn same_up_to_order(a: TreeNode, b: TreeNode) -> bool
    decreases a,
{
    &&& a.entry@ == b.entry@
    &&& a.children@.len() == b.children@.len()
    &&& exists|p: Seq<usize>|
        #[trigger] is_arrangement(p, a.children@.len()) && forall|k: int|
            0 <= k < a.children@.len() ==> same_up_to_order(
                a.children@[p[k] as int],
                #[trigger] b.children@[k],
            )
}

/// `p` lists each of the positions `0..n` once.
pub open spec fn is_arrangement(p: Seq<usize>, n: nat) -> bool {
    &&& p.len() == n
    &&& in_range(p, 0, n as int)
    &&& distinct(p)
}

/// Trees that differ only in the order of children hold the same summed
/// size and the same numbers of files and of directories.
pub proof fn lemma_same_totals(a: TreeNode, b: TreeNode)
    requires
        same_up_to_order(a, b),
    ensures
        subtree_size(b) == subtree_size(a),
        subtree_files(b) == subtree_files(a),
        subtree_dirs(b) == subtree_dirs(a),
    decreases a,
{
    let n = a.children@.len();
    let p = choose|p: Seq<usize>|
        #[trigger] is_arrangement(p, a.children@.len()) && forall|k: int|
            0 <= k < a.children@.len() ==> same_up_to_order(
                a.children@[p[k] as int],
                #[trigger] b.children@[k],
            );
    assert forall|k: int| 0 <= k < n implies {
        &&& subtree_size(#[trigger] b.children@[k]) == subtree_size(a.children@[p[k] as int])
        &&& subtree_files(b.children@[k]) == subtree_files(a.children@[p[k] as int])
        &&& subtree_dirs(b.children@[k]) == subtree_dirs(a.children@[p[k] as int])
    } by {
        assert(same_up_to_order(a.children@[p[k] as int], b.children@[k]));
        lemma_same_totals(a.children@[p[k] as int], b.children@[k]);
    }
    lemma_children_sums(a, n);
    lemma_children_sums(b, n);
    let sa = child_subtree_sizes(a, n);
    let fa = child_subtree_files(a, n);
    let da = child_subtree_dirs(a, n);
    lemma_sum_permuted(sa, p);
    lemma_sum_permuted(fa, p);
    lemma_sum_permuted(da, p);
    assert(child_subtree_sizes(b, n) =~= p.map_values(|i: usize| sa[i as int]));
    assert(child_subtree_files(b, n) =~= p.map_values(|i: usize| fa[i as int]));
    assert(child_subtree_dirs(b, n) =~= p.map_values(|i: usize| da[i as int]));
}

} // verus!
