//! Scanning: the configuration, the assembly of scanned entries into a tree
//! with cumulative sizes and totals, and the bookkeeping of a running scan.
use vstd::prelude::*;
use std::collections::{HashMap, HashSet};
use crate::paths::{components_of, parent_of, path_components, path_parent, texts};
use crate::text::chars_of;
use crate::tree::{
    EntryModel, FileEntry, FileTree, TreeNode, new_entry_model, sat, subtree_size,
    children_size, subtree_files, children_files, subtree_dirs, children_dirs, same_up_to_order,
    is_arrangement, lemma_same_totals,
};
use crate::order::{in_range, distinct};

verus! {

broadcast use vstd::std_specs::hash::group_hash_axioms;

/// The last position in `nodes` whose path has the components `k`.
pub open spec fn last_with_key(nodes: Seq<EntryModel>, k: Seq<Seq<char>>) -> Option<int>
    decreases nodes.len(),
{
    if nodes.len() == 0 {
        None
    } else if components_of(nodes.last().path) == k {
        Some(nodes.len() - 1)
    } else {
        last_with_key(nodes.drop_last(), k)
    }
}

/// The last position in `nodes` whose path is `q` as `std::path::Path`
/// compares paths: component by component, so that `d/` and `d` are the
/// same path.
pub open spec fn last_with_path(nodes: Seq<EntryModel>, q: Seq<char>) -> Option<int> {
    last_with_key(nodes, components_of(q))
}

/// The entries that become nodes: the scanned ones, then the root itself
/// where no scanned entry has its path.
pub open spec fn table_entries(root: Seq<char>, entries: Seq<EntryModel>) -> Seq<EntryModel> {
    if last_with_path(entries, root) is Some {
        entries
    } else {
        entries.push(new_entry_model(root, 0, true))
    }
}

/// The children of node `i` once the first `m` scanned entries are placed:
/// each entry, in scan order, goes below the last node whose path is the
/// entry's parent, as the last node with the entry's own path.
pub open spec fn table_children(nodes: Seq<EntryModel>, entries: Seq<EntryModel>, i: int, m: nat) -> Seq<usize>
    decreases m,
{
    if m == 0 || m > entries.len() {
        Seq::empty()
    } else {
        let prev = table_children(nodes, entries, i, (m - 1) as nat);
        let e = entries[m - 1];
        match parent_of(e.path) {
            Some(pp) => if last_with_path(nodes, pp) == Some(i) {
                prev.push(last_with_path(nodes, e.path)->0 as usize)
            } else {
                prev
            },
            None => prev,
        }
    }
}

/// The children lists of all nodes.
pub open spec fn table_kids(nodes: Seq<EntryModel>, entries: Seq<EntryModel>) -> Seq<Seq<usize>> {
    Seq::new(nodes.len(), |i: int| table_children(nodes, entries, i, entries.len()))
}

/// `t` is the tree that starts at node `i`: its entry is that node's, and
/// its children are the trees of that node's children, in order.
pub open spec fn shaped(nodes: Seq<EntryModel>, kids: Seq<Seq<usize>>, i: int, t: TreeNode) -> bool
    decreases t,
{
    &&& 0 <= i < nodes.len()
    &&& i < kids.len()
    &&& t.entry@ == nodes[i]
    &&& t.children@.len() == kids[i].len()
    &&& forall|k: int|
        0 <= k < t.children@.len() ==> shaped(nodes, kids, kids[i][k] as int, #[trigger] t.children@[k])
}

/// `new` is `old` with every entry's size replaced by the size of its
/// subtree, summed with saturation.
pub open spec fn cumulated(old: TreeNode, new: TreeNode) -> bool
    decreases old,
{
    &&& new.entry.size == sat(subtree_size(old))
    &&& new.entry.path == old.entry.path
    &&& new.entry.is_directory == old.entry.is_directory
    &&& new.entry.inode == old.entry.inode
    &&& new.entry.device == old.entry.device
    &&& new.entry.file_count == old.entry.file_count
    &&& new.entry.dir_count == old.entry.dir_count
    &&& new.children@.len() == old.children@.len()
    &&& forall|k: int|
        0 <= k < old.children@.len() ==> cumulated(
            old.children@[k],
            #[trigger] new.children@[k],
        )
}

/// The entries of the nodes of the table.
pub open spec fn entries_of(nodes: Seq<(FileEntry, Vec<usize>)>) -> Seq<EntryModel> {
    nodes.map_values(|n: (FileEntry, Vec<usize>)| n.0@)
}

/// The children lists of the nodes of the table.
pub open spec fn kids_of(nodes: Seq<(FileEntry, Vec<usize>)>) -> Seq<Seq<usize>> {
    nodes.map_values(|n: (FileEntry, Vec<usize>)| n.1@)
}

/// The number of components of a node's path.
pub open spec fn depth_of(n: (FileEntry, Vec<usize>)) -> nat {
    components_of(n.0.path@).len()
}

/// Every child of a node has more path components than the node.
pub open spec fn deeper(nodes: Seq<(FileEntry, Vec<usize>)>) -> bool {
    forall|i: int, k: int|
        0 <= i < nodes.len() && 0 <= k < nodes[i].1@.len() ==> {
            let c = #[trigger] nodes[i].1@[k] as int;
            &&& c < nodes.len()
            &&& depth_of(nodes[c]) > depth_of(nodes[i])
        }
}

/// The largest number of path components among the nodes.
pub open spec fn deepest(nodes: Seq<(FileEntry, Vec<usize>)>) -> nat
    decreases nodes.len(),
{
    if nodes.len() == 0 {
        0
    } else {
        let rest = deepest(nodes.drop_last());
        let here = depth_of(nodes.last());
        if here > rest {
            here
        } else {
            rest
        }
    }
}

proof fn lemma_deepest(nodes: Seq<(FileEntry, Vec<usize>)>, i: int)
    requires
        0 <= i < nodes.len(),
    ensures
        depth_of(nodes[i]) <= deepest(nodes),
    decreases nodes.len(),
{
    if i < nodes.len() - 1 {
        lemma_deepest(nodes.drop_last(), i);
    }
}

/// The components of an entry's path.
pub open spec fn key_of(e: EntryModel) -> Seq<Seq<char>> {
    components_of(e.path)
}

proof fn lemma_last_with_key(nodes: Seq<EntryModel>, k: Seq<Seq<char>>)
    ensures
        last_with_key(nodes, k) matches Some(i) ==> 0 <= i < nodes.len() && key_of(nodes[i]) == k
            && forall|j: int| i < j < nodes.len() ==> key_of(#[trigger] nodes[j]) != k,
        last_with_key(nodes, k) is None ==> forall|j: int|
            0 <= j < nodes.len() ==> key_of(#[trigger] nodes[j]) != k,
    decreases nodes.len(),
{
    if nodes.len() > 0 {
        let d = nodes.drop_last();
        lemma_last_with_key(d, k);
        assert forall|j: int| 0 <= j < d.len() implies d[j] == nodes[j] by {}
        if key_of(nodes.last()) != k {
            if last_with_key(d, k) is None {
                assert forall|j: int| 0 <= j < nodes.len() implies key_of(#[trigger] nodes[j]) != k by {
                    if j < d.len() {
                        assert(key_of(d[j]) != k);
                    }
                }
            } else {
                let i = last_with_key(d, k)->0;
                assert forall|j: int| i < j < nodes.len() implies key_of(#[trigger] nodes[j]) != k by {
                    if j < d.len() {
                        assert(key_of(d[j]) != k);
                    }
                }
            }
        }
    }
}

proof fn lemma_last_with_key_prefix(nodes: Seq<EntryModel>, k: Seq<Seq<char>>, i: int)
    requires
        0 <= i < nodes.len(),
        key_of(nodes[i]) == k,
        forall|j: int| i < j < nodes.len() ==> key_of(#[trigger] nodes[j]) != k,
    ensures
        last_with_key(nodes, k) == Some(i),
    decreases nodes.len(),
{
    if i < nodes.len() - 1 {
        lemma_last_with_key_prefix(nodes.drop_last(), k, i);
    }
}

proof fn lemma_last_with_key_none(nodes: Seq<EntryModel>, k: Seq<Seq<char>>)
    requires
        forall|j: int| 0 <= j < nodes.len() ==> key_of(#[trigger] nodes[j]) != k,
    ensures
        last_with_key(nodes, k) is None,
    decreases nodes.len(),
{
    if nodes.len() > 0 {
        lemma_last_with_key_none(nodes.drop_last(), k);
    }
}

/// The hash of a text continued from `h`.
pub open spec fn chars_hash(h: u64, s: Seq<char>) -> u64
    decreases s.len(),
{
    if s.len() == 0 {
        h
    } else {
        (chars_hash(h, s.drop_last()) ^ (s.last() as u64)).wrapping_mul(0x100000001b3u64)
    }
}

/// The hash under which the position index files a list of path
/// components: each component's characters, after a separator mark.
pub open spec fn key_hash(k: Seq<Seq<char>>) -> u64
    decreases k.len(),
{
    if k.len() == 0 {
        0xcbf29ce484222325u64
    } else {
        chars_hash((key_hash(k.drop_last()) ^ 0x2fu64).wrapping_mul(0x100000001b3u64), k.last())
    }
}

fn hash_text(h0: u64, s: &String) -> (h: u64)
    ensures
        h == chars_hash(h0, s@),
{
    let cs = chars_of(s.as_str());
    let mut h: u64 = h0;
    let mut i: usize = 0;
    while i < cs.len()
        invariant
            i <= cs@.len(),
            h == chars_hash(h0, cs@.take(i as int)),
        decreases cs@.len() - i,
    {
        assert(cs@.take(i + 1).drop_last() =~= cs@.take(i as int));
        h = (h ^ (cs[i] as u64)).wrapping_mul(0x100000001b3u64);
        i = i + 1;
    }
    assert(cs@.take(cs@.len() as int) =~= cs@);
    h
}

fn hash_key(key: &Vec<String>) -> (h: u64)
    ensures
        h == key_hash(texts(key@)),
{
    let mut h: u64 = 0xcbf29ce484222325u64;
    let mut i: usize = 0;
    while i < key.len()
        invariant
            i <= key@.len(),
            h == key_hash(texts(key@).take(i as int)),
        decreases key@.len() - i,
    {
        assert(texts(key@).take(i + 1).drop_last() =~= texts(key@).take(i as int));
        let start = (h ^ 0x2fu64).wrapping_mul(0x100000001b3u64);
        h = hash_text(start, &key[i]);
        i = i + 1;
    }
    assert(texts(key@).take(key@.len() as int) =~= texts(key@));
    h
}

/// Whether two component lists are equal.
fn same_key(a: &Vec<String>, b: &Vec<String>) -> (r: bool)
    ensures
        r == (texts(a@) == texts(b@)),
{
    if a.len() != b.len() {
        return false;
    }
    let mut i: usize = 0;
    while i < a.len()
        invariant
            a@.len() == b@.len(),
            i <= a@.len(),
            forall|j: int| 0 <= j < i ==> a@[j]@ == b@[j]@,
        decreases a@.len() - i,
    {
        if a[i] != b[i] {
            assert(texts(a@)[i as int] != texts(b@)[i as int]);
            return false;
        }
        i = i + 1;
    }
    assert(texts(a@) =~= texts(b@));
    true
}

/// Positions of nodes filed by the hash of their path's components, with
/// the components of every node.
struct PathIndex {
    buckets: HashMap<u64, Vec<usize>>,
    keys: Vec<Vec<String>>,
}

impl PathIndex {
    /// The components of every node are kept, and each bucket holds, in
    /// increasing order, exactly the positions whose components have the
    /// bucket's hash.
    spec fn filed(&self, nodes: Seq<EntryModel>) -> bool {
        &&& self.keys@.len() == nodes.len()
        &&& forall|i: int| 0 <= i < nodes.len() ==> texts(#[trigger] self.keys@[i]@) == key_of(nodes[i])
        &&& forall|h: u64, k: int|
            #![trigger self.buckets@[h]@[k]]
            self.buckets@.contains_key(h) && 0 <= k < self.buckets@[h]@.len() ==> {
                &&& self.buckets@[h]@[k] < nodes.len()
                &&& key_hash(key_of(nodes[self.buckets@[h]@[k] as int])) == h
            }
        &&& forall|h: u64, a: int, b: int|
            #![trigger self.buckets@[h]@[a], self.buckets@[h]@[b]]
            self.buckets@.contains_key(h) && 0 <= a < b < self.buckets@[h]@.len()
                ==> self.buckets@[h]@[a] < self.buckets@[h]@[b]
        &&& forall|i: int|
            #![trigger nodes[i]]
            0 <= i < nodes.len() ==> {
                &&& self.buckets@.contains_key(key_hash(key_of(nodes[i])))
                &&& self.buckets@[key_hash(key_of(nodes[i]))]@.contains(i as usize)
            }
    }

    fn new() -> (r: Self)
        ensures
            r.filed(Seq::empty()),
    {
        PathIndex { buckets: HashMap::new(), keys: Vec::new() }
    }

    /// Files the last node.
    fn add(&mut self, nodes: &Vec<(FileEntry, Vec<usize>)>)
        requires
            nodes@.len() > 0,
            old(self).filed(entries_of(nodes@).drop_last()),
        ensures
            final(self).filed(entries_of(nodes@)),
    {
        let i = nodes.len() - 1;
        let ghost ents = entries_of(nodes@);
        let ghost before = ents.drop_last();
        let key = path_components(nodes[i].0.path.as_str());
        let h = hash_key(&key);
        let mut bucket = match self.buckets.remove(&h) {
            Some(b) => b,
            None => Vec::new(),
        };
        let ghost old_bucket = bucket@;
        bucket.push(i);
        self.buckets.insert(h, bucket);
        self.keys.push(key);
        proof {
            assert(ents[i as int] == nodes@[i as int].0@);
            assert forall|j: int| 0 <= j < ents.len() implies texts(#[trigger] self.keys@[j]@) == key_of(ents[j]) by {
                if j < i {
                    assert(self.keys@[j] == old(self).keys@[j]);
                    assert(ents[j] == before[j]);
                }
            }
            assert forall|h2: u64, k: int|
                #![trigger self.buckets@[h2]@[k]]
                self.buckets@.contains_key(h2) && 0 <= k < self.buckets@[h2]@.len() implies {
                    &&& self.buckets@[h2]@[k] < ents.len()
                    &&& key_hash(key_of(ents[self.buckets@[h2]@[k] as int])) == h2
                } by {
                if h2 == h {
                    if k < old_bucket.len() {
                        assert(old(self).buckets@[h2]@[k] == old_bucket[k]);
                        assert(ents[old_bucket[k] as int] == before[old_bucket[k] as int]);
                    }
                } else {
                    assert(old(self).buckets@[h2] == self.buckets@[h2]);
                    assert(old(self).buckets@[h2]@[k] < before.len());
                    assert(ents[self.buckets@[h2]@[k] as int] == before[self.buckets@[h2]@[k] as int]);
                }
            }
            assert forall|h2: u64, a: int, b: int|
                #![trigger self.buckets@[h2]@[a], self.buckets@[h2]@[b]]
                self.buckets@.contains_key(h2) && 0 <= a < b < self.buckets@[h2]@.len()
                    implies self.buckets@[h2]@[a] < self.buckets@[h2]@[b] by {
                if h2 == h {
                    if b < old_bucket.len() {
                        assert(old(self).buckets@[h2]@[a] == old_bucket[a]);
                        assert(old(self).buckets@[h2]@[b] == old_bucket[b]);
                    } else {
                        assert(old(self).buckets@[h2]@[a] == old_bucket[a]);
                        assert(old_bucket[a] < before.len());
                    }
                } else {
                    assert(old(self).buckets@[h2] == self.buckets@[h2]);
                }
            }
            assert forall|j: int|
                #![trigger ents[j]]
                0 <= j < ents.len() implies {
                    &&& self.buckets@.contains_key(key_hash(key_of(ents[j])))
                    &&& self.buckets@[key_hash(key_of(ents[j]))]@.contains(j as usize)
                } by {
                if j == i {
                    assert(self.buckets@[h]@[old_bucket.len() as int] == i);
                } else {
                    assert(before[j] == ents[j]);
                    let h2 = key_hash(key_of(ents[j]));
                    assert(old(self).buckets@.contains_key(h2));
                    assert(old(self).buckets@[h2]@.contains(j as usize));
                    if h2 == h {
                        let m = choose|m: int| 0 <= m < old_bucket.len() && old_bucket[m] == j as usize;
                        assert(self.buckets@[h]@[m] == j as usize);
                    } else {
                        assert(old(self).buckets@[h2] == self.buckets@[h2]);
                    }
                }
            }
        }
    }

    /// The last position whose path has the components `q`.
    fn lookup(&self, nodes: &Vec<(FileEntry, Vec<usize>)>, q: &Vec<String>) -> (r: Option<usize>)
        requires
            self.filed(entries_of(nodes@)),
        ensures
            r matches Some(i) ==> last_with_key(entries_of(nodes@), texts(q@)) == Some(i as int),
            r is None ==> last_with_key(entries_of(nodes@), texts(q@)) is None,
    {
        let ghost ents = entries_of(nodes@);
        let ghost kq = texts(q@);
        assert(ents.len() == nodes@.len());
        let nlen = nodes.len();
        let h = hash_key(q);
        match self.buckets.get(&h) {
            None => {
                proof {
                    assert forall|j: int| 0 <= j < ents.len() implies key_of(#[trigger] ents[j]) != kq by {
                        if key_of(ents[j]) == kq {
                            assert(self.buckets@.contains_key(key_hash(key_of(ents[j]))));
                        }
                    }
                    lemma_last_with_key_none(ents, kq);
                }
                None
            },
            Some(b) => {
                let mut k = b.len();
                while k > 0
                    invariant
                        self.filed(ents),
                        ents == entries_of(nodes@),
                        nlen == nodes@.len(),
                        self.buckets@.contains_key(h),
                        *b == self.buckets@[h],
                        h == key_hash(kq),
                        kq == texts(q@),
                        k <= b@.len(),
                        forall|m: int| k <= m < b@.len() ==> key_of(ents[#[trigger] b@[m] as int]) != kq,
                    decreases k,
                {
                    let c = b[k - 1];
                    assert(self.buckets@[h]@[k - 1] == c);
                    assert(ents[c as int] == nodes@[c as int].0@);
                    if same_key(&self.keys[c], q) {
                        proof {
                            assert(texts(self.keys@[c as int]@) == key_of(ents[c as int]));
                            assert forall|j: int| c < j < ents.len() implies key_of(#[trigger] ents[j]) != kq by {
                                if key_of(ents[j]) == kq {
                                    assert(j < nodes@.len());
                                    assert(self.buckets@[h]@.contains(j as usize));
                                    let m = choose|m: int| 0 <= m < b@.len() && b@[m] == j as usize;
                                    if m < k - 1 {
                                        assert(self.buckets@[h]@[m] < self.buckets@[h]@[k - 1]);
                                    } else if m == k - 1 {
                                    } else {
                                        assert(key_of(ents[b@[m] as int]) != kq);
                                    }
                                }
                            }
                            lemma_last_with_key_prefix(ents, kq, c as int);
                        }
                        return Some(c);
                    }
                    proof {
                        assert(texts(self.keys@[c as int]@) == key_of(ents[c as int]));
                    }
                    k = k - 1;
                }
                proof {
                    assert forall|j: int| 0 <= j < ents.len() implies key_of(#[trigger] ents[j]) != kq by {
                        if key_of(ents[j]) == kq {
                            assert(j < nodes@.len());
                            assert(self.buckets@[h]@.contains(j as usize));
                            let m = choose|m: int| 0 <= m < b@.len() && b@[m] == j as usize;
                            assert(key_of(ents[b@[m] as int]) != kq);
                        }
                    }
                    lemma_last_with_key_none(ents, kq);
                }
                None
            },
        }
    }
}


proof fn lemma_sat_add(a: nat, b: nat)
    ensures
        sat(sat(a) as nat + sat(b) as nat) == sat(a + b),
{
}

/// The tree below node `index`, each node owning its children.
fn into_shared(index: usize, nodes: &Vec<(FileEntry, Vec<usize>)>) -> (t: TreeNode)
    requires
        index < nodes@.len(),
        deeper(nodes@),
    ensures
        shaped(entries_of(nodes@), kids_of(nodes@), index as int, t),
    decreases deepest(nodes@) - depth_of(nodes@[index as int]),
{
    let entry = nodes[index].0.clone();
    let mut node = TreeNode::new(entry);
    let n = nodes[index].1.len();
    let mut k: usize = 0;
    while k < n
        invariant
            index < nodes@.len(),
            deeper(nodes@),
            n == nodes@[index as int].1@.len(),
            k <= n,
            node.entry@ == entries_of(nodes@)[index as int],
            node.children@.len() == k,
            forall|m: int|
                0 <= m < k ==> shaped(
                    entries_of(nodes@),
                    kids_of(nodes@),
                    kids_of(nodes@)[index as int][m] as int,
                    #[trigger] node.children@[m],
                ),
        decreases n - k,
    {
        let child_index = nodes[index].1[k];
        proof {
            assert(nodes@[index as int].1@[k as int] == child_index);
            lemma_deepest(nodes@, child_index as int);
        }
        let child = into_shared(child_index, nodes);
        node.children.push(child);
        k = k + 1;
    }
    proof {
        assert(kids_of(nodes@)[index as int] == nodes@[index as int].1@);
    }
    node
}

/// Replaces the size of every node by the saturated size of its subtree,
/// and returns the root's new size.
fn calculate_cumulative_sizes(node: &mut TreeNode) -> (total: u64)
    ensures
        cumulated(*old(node), *final(node)),
        total == final(node).entry.size,
    decreases *old(node),
{
    let mut total_size = node.entry.size;
    let n = node.children.len();
    let mut k: usize = 0;
    while k < n
        invariant
            n == node.children@.len(),
            n == old(node).children@.len(),
            node.entry == old(node).entry,
            k <= n,
            total_size == sat(old(node).entry.size as nat + children_size(*old(node), k as nat)),
            forall|m: int| k <= m < n ==> #[trigger] node.children@[m] == old(node).children@[m],
            forall|m: int|
                0 <= m < k ==> cumulated(old(node).children@[m], #[trigger] node.children@[m]),
        decreases n - k,
    {
        proof {
            assert(decreases_to!(*old(node) => old(node).children));
            assert(decreases_to!(old(node).children => old(node).children@));
            assert(decreases_to!(old(node).children@ => old(node).children@[k as int]));
        }
        let child_total = calculate_cumulative_sizes(&mut node.children[k]);
        proof {
            lemma_sat_add(
                old(node).entry.size as nat + children_size(*old(node), k as nat),
                subtree_size(old(node).children@[k as int]),
            );
        }
        total_size = total_size.saturating_add(child_total);
        k = k + 1;
    }
    node.entry.size = total_size;
    total_size
}

/// The saturated numbers of files and of directories in a subtree.
fn count_files_dirs(node: &TreeNode) -> (r: (u64, u64))
    ensures
        r.0 == sat(subtree_files(*node)),
        r.1 == sat(subtree_dirs(*node)),
    decreases *node,
{
    let mut files: u64 = if node.entry.is_directory { 0 } else { 1 };
    let mut dirs: u64 = if node.entry.is_directory { 1 } else { 0 };
    let n = node.children.len();
    let mut k: usize = 0;
    while k < n
        invariant
            n == node.children@.len(),
            k <= n,
            files == sat((if node.entry.is_directory { 0nat } else { 1nat }) + children_files(*node, k as nat)),
            dirs == sat((if node.entry.is_directory { 1nat } else { 0nat }) + children_dirs(*node, k as nat)),
        decreases n - k,
    {
        let (child_files, child_dirs) = count_files_dirs(&node.children[k]);
        proof {
            lemma_sat_add(
                (if node.entry.is_directory { 0nat } else { 1nat }) + children_files(*node, k as nat),
                subtree_files(node.children@[k as int]),
            );
            lemma_sat_add(
                (if node.entry.is_directory { 1nat } else { 0nat }) + children_dirs(*node, k as nat),
                subtree_dirs(node.children@[k as int]),
            );
        }
        files = files.saturating_add(child_files);
        dirs = dirs.saturating_add(child_dirs);
        k = k + 1;
    }
    (files, dirs)
}

/// Sets the totals of a tree from its root.
fn calculate_totals(tree: &mut FileTree)
    ensures
        final(tree).root == old(tree).root,
        final(tree).total_size == old(tree).root.entry.size,
        final(tree).total_files == sat(subtree_files(old(tree).root)),
        final(tree).total_dirs == sat(subtree_dirs(old(tree).root)),
{
    tree.total_size = tree.root.entry.size;
    let (files, dirs) = count_files_dirs(&tree.root);
    tree.total_files = files;
    tree.total_dirs = dirs;
}


/// How the scanned entries are walked: which ones the walk skips or
/// follows, how deep it goes and with how many threads.
#[derive(Debug, Clone)]
pub struct ScanConfig {
    pub follow_links: bool,
    pub max_depth: Option<usize>,
    pub ignore_hidden: bool,
    pub respect_ignore_files: bool,
    pub ignore_patterns: Vec<String>,
    pub num_threads: Option<usize>,
}

impl Default for ScanConfig {
    /// Links not followed, no depth limit, hidden entries skipped, ignore
    /// files not honoured, no custom ignore files, threads chosen by the
    /// machine.
    fn default() -> (r: Self)
        ensures
            !r.follow_links,
            r.max_depth is None,
            r.ignore_hidden,
            !r.respect_ignore_files,
            r.ignore_patterns@.len() == 0,
            r.num_threads is None,
    {
        ScanConfig {
            follow_links: false,
            max_depth: None,
            ignore_hidden: true,
            respect_ignore_files: false,
            ignore_patterns: Vec::new(),
            num_threads: None,
        }
    }
}

/// Calls `num_cpus::get`, the number of CPUs available to this process. It
/// depends on the machine; its documentation promises at least one.
#[verifier::external_body]
fn available_cpus() -> (n: usize)
    ensures
        n >= 1,
{
    num_cpus::get()
}

impl ScanConfig {
    /// The number of walker threads: the configured one, else the number of
    /// available CPUs.
    pub fn thread_count(&self) -> (n: usize)
        ensures
            self.num_threads matches Some(t) ==> n == t,
            self.num_threads is None ==> n >= 1,
    {
        match self.num_threads {
            Some(t) => t,
            None => available_cpus(),
        }
    }
}

/// Why a scan could not start.
#[derive(Debug)]
pub enum ScanError {
    PathNotFound(String),
}

impl ScanError {
    /// The message that describes the error.
    pub fn message(&self) -> (r: String)
        ensures
            self matches ScanError::PathNotFound(p) ==> r@ == "Path not found: "@ + p@,
    {
        match self {
            ScanError::PathNotFound(p) => {
                let mut s = String::new();
                crate::text::push_str(&mut s, "Path not found: ");
                crate::text::push_str(&mut s, p.as_str());
                s
            },
        }
    }
}

/// How far a running scan has come.
#[derive(Debug, Clone)]
pub struct ScanProgress {
    pub files_scanned: u64,
    pub total_size: u64,
    pub current_path: Option<String>,
    /// Milliseconds since the scan started.
    pub elapsed_ms: u64,
}

/// A scan notification. The completed notification carries the tree built
/// by the same worker that reported progress.
#[derive(Debug)]
pub enum ScanUpdate {
    Progress(ScanProgress),
    Complete(FileTree),
}

/// The tree that scanned entries make below `root`: the entries placed as
/// `table_entries` and `table_kids` say, every size replaced by the
/// saturated size of its subtree, and the totals taken from the root.
pub open spec fn built_from(root: Seq<char>, entries: Seq<EntryModel>, tree: FileTree) -> bool {
    let nodes = table_entries(root, entries);
    let kids = table_kids(nodes, entries);
    &&& exists|t0: TreeNode|
        shaped(nodes, kids, last_with_path(nodes, root)->0, t0) && cumulated(t0, tree.root)
    &&& tree.total_size == tree.root.entry.size
    &&& tree.total_files == sat(subtree_files(tree.root))
    &&& tree.total_dirs == sat(subtree_dirs(tree.root))
}

pub open spec fn entry_models(entries: Seq<FileEntry>) -> Seq<EntryModel> {
    entries.map_values(|e: FileEntry| e@)
}

/// Scans with a configuration.
pub struct Scanner {
    config: ScanConfig,
}

impl Scanner {
    pub fn new(config: ScanConfig) -> (r: Self)
        ensures
            r.config() == config,
    {
        Scanner { config }
    }

    pub closed spec fn config(&self) -> ScanConfig {
        self.config
    }

    /// The configuration that the walk of a scan follows.
    pub fn scan_config(&self) -> (r: &ScanConfig)
        ensures
            *r == self.config(),
    {
        &self.config
    }

    /// The result of scanning `path`: an error where the path does not
    /// exist, else the tree that the walked entries make.
    pub fn scan(&self, path: &String, path_exists: bool, entries: Vec<FileEntry>) -> (r: Result<
        FileTree,
        ScanError,
    >)
        ensures
            !path_exists ==> (r matches Err(ScanError::PathNotFound(p)) && p@ == path@),
            path_exists ==> (r matches Ok(t) && built_from(path@, entry_models(entries@), t)),
    {
        if !path_exists {
            return Err(ScanError::PathNotFound(path.clone()));
        }
        Ok(Self::build_tree(path, entries))
    }

    /// Assembles the entries of a scan of `path` into a tree.
    pub fn build_tree(path: &String, entries: Vec<FileEntry>) -> (tree: FileTree)
        ensures
            built_from(path@, entry_models(entries@), tree),
    {
        let n = entries.len();
        let ghost es = entry_models(entries@);
        let mut nodes: Vec<(FileEntry, Vec<usize>)> = Vec::new();
        let mut index = PathIndex::new();
        proof {
            assert(entries_of(nodes@) =~= Seq::<EntryModel>::empty());
        }
        let mut j: usize = 0;
        while j < n
            invariant
                n == entries@.len(),
                es == entry_models(entries@),
                j <= n,
                nodes@.len() == j,
                entries_of(nodes@) == es.take(j as int),
                forall|i: int| 0 <= i < j ==> (#[trigger] nodes@[i]).1@ == Seq::<usize>::empty(),
                index.filed(entries_of(nodes@)),
            decreases n - j,
        {
            let e = entries[j].clone();
            nodes.push((e, Vec::new()));
            proof {
                assert(entries_of(nodes@).drop_last() =~= es.take(j as int));
                assert(entries_of(nodes@) =~= es.take(j + 1));
            }
            index.add(&nodes);
            j = j + 1;
        }
        proof {
            assert(es.take(n as int) =~= es);
        }
        let root_key = path_components(path.as_str());
        let found = index.lookup(&nodes, &root_key);
        if found.is_none() {
            let root_entry = FileEntry::new(path.clone(), 0, true);
            nodes.push((root_entry, Vec::new()));
            proof {
                assert(entries_of(nodes@).drop_last() =~= es);
            }
            index.add(&nodes);
        }
        let ghost table = entries_of(nodes@);
        proof {
            assert(table =~= table_entries(path@, es));
            assert forall|i: int| 0 <= i < table.len() implies (#[trigger] nodes@[i]).1@ == table_children(table, es, i, 0) by {}
            assert forall|i: int, k: int| 0 <= i < nodes@.len() && 0 <= k < nodes@[i].1@.len() implies {
                let c = #[trigger] nodes@[i].1@[k] as int;
                &&& c < nodes@.len()
                &&& depth_of(nodes@[c]) > depth_of(nodes@[i])
            } by {
                assert(nodes@[i].1@ == table_children(table, es, i, 0));
            }
        }
        let mut j: usize = 0;
        while j < n
            invariant
                n == entries@.len(),
                es == entry_models(entries@),
                j <= n,
                table == table_entries(path@, es),
                entries_of(nodes@) == table,
                nodes@.len() == table.len(),
                n <= table.len(),
                index.filed(table),
                forall|i: int| 0 <= i < table.len() ==> (#[trigger] nodes@[i]).1@ == table_children(table, es, i, j as nat),
                deeper(nodes@),
            decreases n - j,
        {
            let ghost before = nodes@;
            proof {
                assert(table[j as int] == es[j as int]);
                assert(es[j as int] == entries@[j as int]@);
                lemma_last_with_key(table, components_of(es[j as int].path));
            }
            let own_key = path_components(entries[j].path.as_str());
            let own = index.lookup(&nodes, &own_key);
            let parent = path_parent(entries[j].path.as_str());
            match (own, parent) {
                (Some(node), Some(pp)) => {
                    let parent_key = path_components(pp.as_str());
                    match index.lookup(&nodes, &parent_key) {
                        Some(pn) => {
                            proof {
                                lemma_last_with_key(table, components_of(pp@));
                                lemma_last_with_key(table, components_of(es[j as int].path));
                                assert(table[pn as int] == nodes@[pn as int].0@);
                                assert(table[node as int] == nodes@[node as int].0@);
                                assert(depth_of(nodes@[node as int]) > depth_of(nodes@[pn as int]));
                            }
                            nodes[pn].1.push(node);
                            proof {
                                assert forall|i: int| 0 <= i < nodes@.len() implies (#[trigger] nodes@[i]).0 == before[i].0 by {}
                                assert(entries_of(nodes@) =~= table);
                                assert forall|i: int| 0 <= i < table.len() implies (#[trigger] nodes@[i]).1@ == table_children(table, es, i, (j + 1) as nat) by {
                                    if i != pn {
                                        assert(nodes@[i] == before[i]);
                                    }
                                }
                                assert forall|i: int, k: int| 0 <= i < nodes@.len() && 0 <= k < nodes@[i].1@.len() implies {
                                    let c = #[trigger] nodes@[i].1@[k] as int;
                                    &&& c < nodes@.len()
                                    &&& depth_of(nodes@[c]) > depth_of(nodes@[i])
                                } by {
                                    if i != pn || k < before[i].1@.len() {
                                        assert(nodes@[i].1@[k] == before[i].1@[k]);
                                        assert(before[i].1@[k] == before[i].1@[k]);
                                    }
                                }
                            }
                        },
                        None => {
                            proof {
                                assert forall|i: int| 0 <= i < table.len() implies (#[trigger] nodes@[i]).1@ == table_children(table, es, i, (j + 1) as nat) by {}
                            }
                        },
                    }
                },
                _ => {
                    proof {
                        assert forall|i: int| 0 <= i < table.len() implies (#[trigger] nodes@[i]).1@ == table_children(table, es, i, (j + 1) as nat) by {}
                    }
                },
            }
            j = j + 1;
        }
        proof {
            lemma_last_with_key(table, components_of(path@));
            lemma_last_with_key(es, components_of(path@));
            if last_with_path(es, path@) is Some {
                let i = last_with_path(es, path@)->0;
                assert(table[i] == es[i]);
            }
        }
        let root_index = match index.lookup(&nodes, &root_key) {
            Some(i) => i,
            None => {
                proof {
                    assert(key_of(table[table.len() - 1]) == components_of(path@));
                }
                0
            },
        };
        let mut root = into_shared(root_index, &nodes);
        let ghost t0 = root;
        proof {
            assert(kids_of(nodes@) =~= table_kids(table, es));
        }
        calculate_cumulative_sizes(&mut root);
        let mut tree = FileTree { root, total_size: 0, total_files: 0, total_dirs: 0 };
        calculate_totals(&mut tree);
        proof {
            assert(shaped(table, table_kids(table, es), last_with_path(table, path@)->0, t0) && cumulated(t0, tree.root));
        }
        tree
    }
}

/// Every kept entry has been seen, and no two kept entries share a device
/// and an inode.
pub open spec fn each_once(m: CollectorModel) -> bool {
    &&& forall|i: int| 0 <= i < m.entries.len() ==> m.seen.contains(((#[trigger] m.entries[i]).device, m.entries[i].inode))
    &&& forall|i: int, j: int|
        0 <= i < j < m.entries.len() ==> ((#[trigger] m.entries[i]).device, m.entries[i].inode) != ((
            #[trigger] m.entries[j]).device, m.entries[j].inode)
}

/// Whether the walk goes on after an entry.
#[derive(Debug, Clone, Copy, PartialEq, Eq, Structural)]
pub enum WalkStep {
    Continue,
    Quit,
}

/// What a scan has found so far: the entries, each file or directory once
/// by device and inode, and the running counts.
pub struct EntryCollector {
    seen: HashMap<u64, HashSet<u64>>,
    entries: Vec<FileEntry>,
    scanned: u64,
    total_size: u64,
    cancelled: bool,
}

/// The state of a collector.
pub struct CollectorModel {
    pub seen: Set<(u64, u64)>,
    pub entries: Seq<EntryModel>,
    pub scanned: u64,
    pub total_size: u64,
    pub cancelled: bool,
}

impl View for EntryCollector {
    type V = CollectorModel;

    closed spec fn view(&self) -> CollectorModel {
        CollectorModel {
            seen: Set::new(
                |p: (u64, u64)| self.seen@.contains_key(p.0) && self.seen@[p.0]@.contains(p.1),
            ),
            entries: entry_models(self.entries@),
            scanned: self.scanned,
            total_size: self.total_size,
            cancelled: self.cancelled,
        }
    }
}

impl EntryCollector {
    pub fn new() -> (r: Self)
        ensures
            r@.seen == Set::<(u64, u64)>::empty(),
            r@.entries == Seq::<EntryModel>::empty(),
            r@.scanned == 0,
            r@.total_size == 0,
            !r@.cancelled,
            each_once(r@),
    {
        let r = EntryCollector {
            seen: HashMap::new(),
            entries: Vec::new(),
            scanned: 0,
            total_size: 0,
            cancelled: false,
        };
        proof {
            assert(r@.seen =~= Set::<(u64, u64)>::empty());
            assert(r@.entries =~= Seq::<EntryModel>::empty());
        }
        r
    }

    /// Records a walked entry from its metadata. An entry whose device and
    /// inode were seen before is skipped (`None`); otherwise it is kept with
    /// its allocated size (blocks of 512 bytes, saturated), and the new
    /// count and the saturated running size are returned for reporting.
    pub fn record(
        &mut self,
        path: String,
        device: u64,
        inode: u64,
        blocks: u64,
        is_directory: bool,
    ) -> (r: Option<(u64, u64)>)
        requires
            old(self)@.scanned < u64::MAX,
        ensures
            old(self)@.seen.contains((device, inode)) ==> r is None && final(self)@ == old(self)@,
            !old(self)@.seen.contains((device, inode)) ==> {
                let size = sat((blocks * 512) as nat);
                &&& final(self)@.seen == old(self)@.seen.insert((device, inode))
                &&& final(self)@.entries == old(self)@.entries.push(
                    EntryModel {
                        path: path@,
                        size,
                        is_directory,
                        inode,
                        device,
                        file_count: if is_directory { 0 } else { 1 },
                        dir_count: if is_directory { 1 } else { 0 },
                    },
                )
                &&& final(self)@.scanned == old(self)@.scanned + 1
                &&& final(self)@.total_size == (old(self)@.total_size + size) % 0x1_0000_0000_0000_0000
                &&& final(self)@.cancelled == old(self)@.cancelled
                &&& r == Some((final(self)@.scanned, sat((old(self)@.total_size + size) as nat)))
            },
            each_once(old(self)@) ==> each_once(final(self)@),
    {
        let ghost old_view = self@;
        let mut inodes = match self.seen.remove(&device) {
            Some(s) => s,
            None => HashSet::new(),
        };
        let fresh = inodes.insert(inode);
        self.seen.insert(device, inodes);
        if !fresh {
            proof {
                assert(self@.seen =~= old_view.seen);
            }
            return None;
        }
        let size = match blocks.checked_mul(512) {
            Some(s) => s,
            None => u64::MAX,
        };
        let entry = FileEntry {
            path,
            size,
            is_directory,
            inode,
            device,
            file_count: if is_directory { 0 } else { 1 },
            dir_count: if is_directory { 1 } else { 0 },
        };
        self.entries.push(entry);
        self.scanned = self.scanned + 1;
        let bytes = self.total_size.saturating_add(size);
        self.total_size = self.total_size.wrapping_add(size);
        proof {
            assert(self@.seen =~= old_view.seen.insert((device, inode)));
            assert(self@.entries =~= old_view.entries.push(entry@));
            if each_once(old_view) {
                let es = self@.entries;
                assert forall|i: int| 0 <= i < es.len() implies self@.seen.contains(((#[trigger] es[i]).device, es[i].inode)) by {
                    if i < old_view.entries.len() {
                        assert(es[i] == old_view.entries[i]);
                    }
                }
                assert forall|i: int, j: int| 0 <= i < j < es.len() implies ((#[trigger] es[i]).device, es[i].inode) != ((#[trigger] es[j]).device, es[j].inode) by {
                    assert(es[i] == old_view.entries[i]);
                    if j < old_view.entries.len() {
                        assert(es[j] == old_view.entries[j]);
                    } else {
                        assert(old_view.seen.contains((es[i].device, es[i].inode)));
                    }
                }
            }
        }
        Some((self.scanned, bytes))
    }

    /// Whether the walk goes on to the next entry: not once the scan is
    /// cancelled.
    pub fn walk_on(&self) -> (r: WalkStep)
        ensures
            r == (if self@.cancelled { WalkStep::Quit } else { WalkStep::Continue }),
    {
        if self.cancelled {
            WalkStep::Quit
        } else {
            WalkStep::Continue
        }
    }

    /// The step after a recorded entry was reported: the walk goes on where
    /// the report was taken; a refused report cancels the scan and stops
    /// the walk.
    pub fn after_report(&mut self, accepted: bool) -> (r: WalkStep)
        ensures
            accepted ==> r == WalkStep::Continue && final(self)@ == old(self)@,
            !accepted ==> r == WalkStep::Quit && final(self)@.cancelled
                && final(self)@.seen == old(self)@.seen && final(self)@.entries == old(self)@.entries
                && final(self)@.scanned == old(self)@.scanned && final(self)@.total_size
                == old(self)@.total_size,
    {
        if accepted {
            WalkStep::Continue
        } else {
            self.cancel();
            WalkStep::Quit
        }
    }

    pub fn is_cancelled(&self) -> (r: bool)
        ensures
            r == self@.cancelled,
    {
        self.cancelled
    }

    /// Marks the scan as cancelled, for the walk to stop.
    pub fn cancel(&mut self)
        ensures
            final(self)@.cancelled,
            final(self)@.seen == old(self)@.seen,
            final(self)@.entries == old(self)@.entries,
            final(self)@.scanned == old(self)@.scanned,
            final(self)@.total_size == old(self)@.total_size,
    {
        self.cancelled = true;
    }

    pub fn scanned(&self) -> (r: u64)
        ensures
            r == self@.scanned,
    {
        self.scanned
    }

    pub fn total_size(&self) -> (r: u64)
        ensures
            r == self@.total_size,
    {
        self.total_size
    }

    /// The kept entries, in the order they were recorded.
    pub fn into_entries(self) -> (r: Vec<FileEntry>)
        ensures
            entry_models(r@) == self@.entries,
    {
        self.entries
    }
}

/// Milliseconds between progress reports at the least.
pub const REPORT_INTERVAL_MS: u64 = 500;

/// A change in the file count that is reported at once.
pub const REPORT_FILE_STEP: u64 = 1000;

/// A change in the scanned size that is reported at once.
pub const REPORT_SIZE_STEP: u64 = 104857600;

/// When the last progress report was sent, and what it said.
pub struct ProgressThrottle {
    pub last_report_ms: u64,
    pub last_files: u64,
    pub last_bytes: u64,
}

impl ProgressThrottle {
    /// A throttle for a scan that starts at `now_ms`, nothing reported yet.
    pub fn new(now_ms: u64) -> (r: Self)
        ensures
            r.last_report_ms == now_ms,
            r.last_files == 0,
            r.last_bytes == 0,
    {
        ProgressThrottle { last_report_ms: now_ms, last_files: 0, last_bytes: 0 }
    }

    /// Whether a report is due: half a second has passed since the last
    /// one, or the counts have grown by more than a thousand files or more
    /// than a hundred mebibytes.
    pub fn should_report(&self, now_ms: u64, files: u64, bytes: u64) -> (r: bool)
        requires
            now_ms >= self.last_report_ms,
            files >= self.last_files,
            bytes >= self.last_bytes,
        ensures
            r == (now_ms - self.last_report_ms >= REPORT_INTERVAL_MS || files - self.last_files
                > REPORT_FILE_STEP || bytes - self.last_bytes > REPORT_SIZE_STEP),
    {
        let significant_change = files - self.last_files > REPORT_FILE_STEP || bytes
            - self.last_bytes > REPORT_SIZE_STEP;
        now_ms - self.last_report_ms >= REPORT_INTERVAL_MS || significant_change
    }

    /// Remembers a report that was sent.
    pub fn mark_reported(&mut self, now_ms: u64, files: u64, bytes: u64)
        ensures
            final(self).last_report_ms == now_ms,
            final(self).last_files == files,
            final(self).last_bytes == bytes,
    {
        self.last_report_ms = now_ms;
        self.last_files = files;
        self.last_bytes = bytes;
    }
}

proof fn lemma_child_within(t: TreeNode, m: nat, k: int)
    requires
        0 <= k < m <= t.children@.len(),
    ensures
        subtree_size(t.children@[k]) <= children_size(t, m),
    decreases m,
{
    if k < m - 1 {
        lemma_child_within(t, (m - 1) as nat, k);
    }
}

/// Where sizes are cumulative, no child is larger than its parent.
pub proof fn lemma_cumulated_dominates(old: TreeNode, new: TreeNode)
    requires
        cumulated(old, new),
    ensures
        forall|k: int| 0 <= k < new.children@.len() ==> (#[trigger] new.children@[k]).entry.size <= new.entry.size,
{
    assert forall|k: int| 0 <= k < new.children@.len() implies (#[trigger] new.children@[k]).entry.size <= new.entry.size by {
        assert(cumulated(old.children@[k], new.children@[k]));
        lemma_child_within(old, old.children@.len(), k);
    }
}


/// The device and inode of every node of a subtree: the root's first, then
/// those of each child's subtree in order.
pub open spec fn tree_keys(t: TreeNode) -> Seq<(u64, u64)>
    decreases t,
{
    seq![(t.entry.device, t.entry.inode)] + children_keys(t, t.children@.len())
}

/// The device and inode pairs of the subtrees of the first `k` children.
pub open spec fn children_keys(t: TreeNode, k: nat) -> Seq<(u64, u64)>
    decreases t, k,
{
    if k == 0 || k > t.children@.len() {
        Seq::empty()
    } else {
        children_keys(t, (k - 1) as nat) + tree_keys(t.children@[k - 1])
    }
}

/// The table positions of the nodes of a subtree shaped from position `i`,
/// in the order of `tree_keys`.
spec fn positions(kids: Seq<Seq<usize>>, i: int, t: TreeNode) -> Seq<int>
    decreases t,
{
    seq![i] + child_positions(kids, i, t, t.children@.len())
}

spec fn child_positions(kids: Seq<Seq<usize>>, i: int, t: TreeNode, k: nat) -> Seq<int>
    decreases t, k,
{
    if k == 0 || k > t.children@.len() {
        Seq::empty()
    } else {
        child_positions(kids, i, t, (k - 1) as nat) + positions(
            kids,
            kids[i][k - 1] as int,
            t.children@[k - 1],
        )
    }
}

spec fn keys_at(nodes: Seq<EntryModel>, ps: Seq<int>) -> Seq<(u64, u64)> {
    ps.map_values(|q: int| (nodes[q].device, nodes[q].inode))
}

/// The position of the node under which the entry at `q` is placed: the
/// last one whose path is its parent; `q` itself where there is none.
spec fn parent_index(nodes: Seq<EntryModel>, q: int) -> int {
    match parent_of(nodes[q].path) {
        Some(pp) => match last_with_path(nodes, pp) {
            Some(x) => x,
            None => q,
        },
        None => q,
    }
}

/// Every child listed under `x` has `x` as its parent, and no list holds a
/// position twice.
spec fn kids_parented(nodes: Seq<EntryModel>, kids: Seq<Seq<usize>>) -> bool {
    &&& forall|x: int, k: int|
        0 <= x < kids.len() && 0 <= k < kids[x].len() ==> parent_index(nodes, #[trigger] kids[x][k] as int)
            == x
    &&& forall|x: int| 0 <= x < kids.len() ==> (#[trigger] kids[x]).no_duplicates()
}

spec fn ancestor(nodes: Seq<EntryModel>, q: int, n: nat) -> int
    decreases n,
{
    if n == 0 {
        q
    } else {
        parent_index(nodes, ancestor(nodes, q, (n - 1) as nat))
    }
}

proof fn lemma_cumulated_keys(old: TreeNode, new: TreeNode)
    requires
        cumulated(old, new),
    ensures
        tree_keys(new) == tree_keys(old),
    decreases old,
{
    let n = old.children@.len();
    assert forall|j: int| 0 <= j < n implies tree_keys(#[trigger] new.children@[j]) == tree_keys(old.children@[j]) by {
        assert(cumulated(old.children@[j], new.children@[j]));
        lemma_cumulated_keys(old.children@[j], new.children@[j]);
    }
    lemma_children_keys_same(old, new, n);
}

proof fn lemma_children_keys_same(a: TreeNode, b: TreeNode, k: nat)
    requires
        a.children@.len() == b.children@.len(),
        k <= a.children@.len(),
        forall|j: int| 0 <= j < a.children@.len() ==> tree_keys(#[trigger] b.children@[j]) == tree_keys(a.children@[j]),
    ensures
        children_keys(b, k) == children_keys(a, k),
    decreases k,
{
    if k > 0 {
        lemma_children_keys_same(a, b, (k - 1) as nat);
        assert(tree_keys(b.children@[k - 1]) == tree_keys(a.children@[k - 1]));
    }
}

proof fn lemma_keys_at_add(nodes: Seq<EntryModel>, a: Seq<int>, b: Seq<int>)
    ensures
        keys_at(nodes, a + b) == keys_at(nodes, a) + keys_at(nodes, b),
{
    assert(keys_at(nodes, a + b) =~= keys_at(nodes, a) + keys_at(nodes, b));
}

proof fn lemma_shaped_keys(nodes: Seq<EntryModel>, kids: Seq<Seq<usize>>, i: int, t: TreeNode)
    requires
        shaped(nodes, kids, i, t),
    ensures
        tree_keys(t) == keys_at(nodes, positions(kids, i, t)),
    decreases t,
{
    let n = t.children@.len();
    assert forall|j: int| 0 <= j < n implies tree_keys(#[trigger] t.children@[j]) == keys_at(
        nodes,
        positions(kids, kids[i][j] as int, t.children@[j]),
    ) by {
        assert(shaped(nodes, kids, kids[i][j] as int, t.children@[j]));
        lemma_shaped_keys(nodes, kids, kids[i][j] as int, t.children@[j]);
    }
    lemma_shaped_children_keys(nodes, kids, i, t, n);
    lemma_keys_at_add(nodes, seq![i], child_positions(kids, i, t, n));
    assert(keys_at(nodes, seq![i]) =~= seq![(t.entry.device, t.entry.inode)]);
}

proof fn lemma_shaped_children_keys(nodes: Seq<EntryModel>, kids: Seq<Seq<usize>>, i: int, t: TreeNode, k: nat)
    requires
        k <= t.children@.len(),
        forall|j: int| 0 <= j < t.children@.len() ==> tree_keys(#[trigger] t.children@[j]) == keys_at(
            nodes,
            positions(kids, kids[i][j] as int, t.children@[j]),
        ),
    ensures
        children_keys(t, k) == keys_at(nodes, child_positions(kids, i, t, k)),
    decreases k,
{
    if k > 0 {
        lemma_shaped_children_keys(nodes, kids, i, t, (k - 1) as nat);
        assert(tree_keys(t.children@[k - 1]) == keys_at(nodes, positions(kids, kids[i][k - 1] as int, t.children@[k - 1])));
        lemma_keys_at_add(
            nodes,
            child_positions(kids, i, t, (k - 1) as nat),
            positions(kids, kids[i][k - 1] as int, t.children@[k - 1]),
        );
    } else {
        assert(keys_at(nodes, child_positions(kids, i, t, k)) =~= Seq::<(u64, u64)>::empty());
    }
}

/// Two trees shaped from the same position list the same positions.
proof fn lemma_shaped_positions_unique(
    nodes: Seq<EntryModel>,
    kids: Seq<Seq<usize>>,
    i: int,
    t: TreeNode,
    u: TreeNode,
)
    requires
        shaped(nodes, kids, i, t),
        shaped(nodes, kids, i, u),
    ensures
        positions(kids, i, t) == positions(kids, i, u),
    decreases t,
{
    let n = t.children@.len();
    assert forall|j: int| 0 <= j < n implies positions(kids, kids[i][j] as int, #[trigger] t.children@[j])
        == positions(kids, kids[i][j] as int, u.children@[j]) by {
        assert(shaped(nodes, kids, kids[i][j] as int, t.children@[j]));
        assert(shaped(nodes, kids, kids[i][j] as int, u.children@[j]));
        lemma_shaped_positions_unique(nodes, kids, kids[i][j] as int, t.children@[j], u.children@[j]);
    }
    lemma_child_positions_same(kids, i, t, u, n);
}

proof fn lemma_child_positions_same(kids: Seq<Seq<usize>>, i: int, t: TreeNode, u: TreeNode, k: nat)
    requires
        t.children@.len() == u.children@.len(),
        k <= t.children@.len(),
        forall|j: int| 0 <= j < t.children@.len() ==> positions(kids, kids[i][j] as int, #[trigger] t.children@[j])
            == positions(kids, kids[i][j] as int, u.children@[j]),
    ensures
        child_positions(kids, i, t, k) == child_positions(kids, i, u, k),
    decreases k,
{
    if k > 0 {
        lemma_child_positions_same(kids, i, t, u, (k - 1) as nat);
        assert(positions(kids, kids[i][k - 1] as int, t.children@[k - 1]) == positions(kids, kids[i][k - 1] as int, u.children@[k - 1]));
    }
}

/// Where an index of the children's positions falls: in the block of child
/// `m`, at offset `o`.
proof fn lemma_locate(kids: Seq<Seq<usize>>, i: int, t: TreeNode, k: nat, x: int) -> (r: (int, int))
    requires
        k <= t.children@.len(),
        0 <= x < child_positions(kids, i, t, k).len(),
    ensures
        0 <= r.0 < k,
        0 <= r.1 < positions(kids, kids[i][r.0] as int, t.children@[r.0]).len(),
        x == child_positions(kids, i, t, r.0 as nat).len() + r.1,
        child_positions(kids, i, t, k)[x] == positions(kids, kids[i][r.0] as int, t.children@[r.0])[r.1],
        child_positions(kids, i, t, (r.0 + 1) as nat).len() <= child_positions(kids, i, t, k).len(),
    decreases k,
{
    let prev = child_positions(kids, i, t, (k - 1) as nat);
    if x < prev.len() {
        let r = lemma_locate(kids, i, t, (k - 1) as nat, x);
        assert(child_positions(kids, i, t, k)[x] == prev[x]);
        r
    } else {
        (k - 1, x - prev.len())
    }
}

/// The block of child `m` sits inside the children's positions.
proof fn lemma_block_inside(kids: Seq<Seq<usize>>, i: int, t: TreeNode, k: nat, m: int, o: int)
    requires
        k <= t.children@.len(),
        0 <= m < k,
        0 <= o < positions(kids, kids[i][m] as int, t.children@[m]).len(),
    ensures
        child_positions(kids, i, t, m as nat).len() + o < child_positions(kids, i, t, k).len(),
        child_positions(kids, i, t, k)[child_positions(kids, i, t, m as nat).len() + o]
            == positions(kids, kids[i][m] as int, t.children@[m])[o],
    decreases k,
{
    if m < k - 1 {
        lemma_block_inside(kids, i, t, (k - 1) as nat, m, o);
    }
}

/// At every index of the positions of a shaped subtree starts a shaped
/// subtree, no larger than what remains from that index.
proof fn lemma_subtree_at(nodes: Seq<EntryModel>, kids: Seq<Seq<usize>>, c: int, t: TreeNode, j: int) -> (u: TreeNode)
    requires
        shaped(nodes, kids, c, t),
        0 <= j < positions(kids, c, t).len(),
    ensures
        shaped(nodes, kids, positions(kids, c, t)[j], u),
        positions(kids, positions(kids, c, t)[j], u).len() + j <= positions(kids, c, t).len(),
    decreases t,
{
    if j == 0 {
        t
    } else {
        let n = t.children@.len();
        let (m, o) = lemma_locate(kids, c, t, n, j - 1);
        let ck = kids[c][m] as int;
        assert(shaped(nodes, kids, ck, t.children@[m]));
        let u = lemma_subtree_at(nodes, kids, ck, t.children@[m], o);
        lemma_child_positions_len(kids, c, t, (m + 1) as nat, n);
        u
    }
}

proof fn lemma_child_positions_len(kids: Seq<Seq<usize>>, i: int, t: TreeNode, a: nat, b: nat)
    requires
        a <= b <= t.children@.len(),
    ensures
        child_positions(kids, i, t, a).len() <= child_positions(kids, i, t, b).len(),
    decreases b,
{
    if a < b {
        lemma_child_positions_len(kids, i, t, a, (b - 1) as nat);
    }
}

/// A shaped subtree does not list its own root again below it.
proof fn lemma_root_once(nodes: Seq<EntryModel>, kids: Seq<Seq<usize>>, c: int, t: TreeNode, j: int)
    requires
        shaped(nodes, kids, c, t),
        0 < j < positions(kids, c, t).len(),
    ensures
        positions(kids, c, t)[j] != c,
{
    let u = lemma_subtree_at(nodes, kids, c, t, j);
    if positions(kids, c, t)[j] == c {
        lemma_shaped_positions_unique(nodes, kids, c, t, u);
    }
}

/// Going up from a position of a shaped subtree reaches its root, through
/// positions of the subtree only.
proof fn lemma_up_to_root(nodes: Seq<EntryModel>, kids: Seq<Seq<usize>>, c: int, t: TreeNode, j: int) -> (n: nat)
    requires
        shaped(nodes, kids, c, t),
        kids_parented(nodes, kids),
        0 <= j < positions(kids, c, t).len(),
    ensures
        ancestor(nodes, positions(kids, c, t)[j], n) == c,
        forall|m: nat| m <= n ==> positions(kids, c, t).contains(#[trigger] ancestor(nodes, positions(kids, c, t)[j], m)),
    decreases t,
{
    let ps = positions(kids, c, t);
    let q = ps[j];
    if j == 0 {
        assert(ps[0] == c);
        assert forall|m: nat| m <= 0 implies ps.contains(#[trigger] ancestor(nodes, q, m)) by {
            assert(ps[0] == ancestor(nodes, q, m));
        }
        0
    } else {
        let nc = t.children@.len();
        let (m0, o) = lemma_locate(kids, c, t, nc, j - 1);
        let ck = kids[c][m0] as int;
        let tk = t.children@[m0];
        assert(shaped(nodes, kids, ck, tk));
        let n1 = lemma_up_to_root(nodes, kids, ck, tk, o);
        let pk = positions(kids, ck, tk);
        assert(pk[o] == q);
        assert(parent_index(nodes, kids[c][m0] as int) == c);
        assert forall|m: nat| m <= n1 + 1 implies ps.contains(#[trigger] ancestor(nodes, q, m)) by {
            if m <= n1 {
                assert(pk.contains(ancestor(nodes, q, m)));
                let y = choose|y: int| 0 <= y < pk.len() && pk[y] == ancestor(nodes, q, m);
                lemma_block_inside(kids, c, t, nc, m0, y);
                let z: int = 1 + child_positions(kids, c, t, m0 as nat).len() + y;
                assert(ps[z] == child_positions(kids, c, t, nc)[z - 1]);
            } else {
                assert(ancestor(nodes, q, m) == c);
                assert(ps[0] == c);
            }
        }
        n1 + 1
    }
}

/// A shaped subtree lists each position once.
proof fn lemma_positions_distinct(nodes: Seq<EntryModel>, kids: Seq<Seq<usize>>, c: int, t: TreeNode)
    requires
        shaped(nodes, kids, c, t),
        kids_parented(nodes, kids),
    ensures
        positions(kids, c, t).no_duplicates(),
    decreases t,
{
    let n = t.children@.len();
    assert forall|m: int| 0 <= m < n implies positions(kids, kids[c][m] as int, #[trigger] t.children@[m]).no_duplicates() by {
        assert(shaped(nodes, kids, kids[c][m] as int, t.children@[m]));
        lemma_positions_distinct(nodes, kids, kids[c][m] as int, t.children@[m]);
    }
    lemma_children_distinct(nodes, kids, c, t, n);
    let ps = positions(kids, c, t);
    let cp = child_positions(kids, c, t, n);
    assert forall|y: int| 0 <= y < cp.len() implies cp[y] != c by {
        assert(ps[y + 1] == cp[y]);
        lemma_root_once(nodes, kids, c, t, y + 1);
    }
    vstd::seq_lib::lemma_no_dup_in_concat(seq![c], cp);
}

proof fn lemma_children_distinct(nodes: Seq<EntryModel>, kids: Seq<Seq<usize>>, c: int, t: TreeNode, k: nat)
    requires
        shaped(nodes, kids, c, t),
        kids_parented(nodes, kids),
        k <= t.children@.len(),
        forall|m: int| 0 <= m < t.children@.len() ==> positions(kids, kids[c][m] as int, #[trigger] t.children@[m]).no_duplicates(),
    ensures
        child_positions(kids, c, t, k).no_duplicates(),
    decreases k,
{
    if k > 0 {
        let n = t.children@.len();
        lemma_children_distinct(nodes, kids, c, t, (k - 1) as nat);
        let a = child_positions(kids, c, t, (k - 1) as nat);
        let b_i = kids[c][k - 1] as int;
        let tb = t.children@[k - 1];
        let b = positions(kids, b_i, tb);
        assert(b.no_duplicates());
        assert forall|x: int, y: int| 0 <= x < a.len() && 0 <= y < b.len() implies a[x] != b[y] by {
            if a[x] == b[y] {
                let (ma, oa) = lemma_locate(kids, c, t, (k - 1) as nat, x);
                let a_i = kids[c][ma] as int;
                let ta = t.children@[ma];
                assert(shaped(nodes, kids, a_i, ta));
                assert(shaped(nodes, kids, b_i, tb));
                let q = a[x];
                let na = lemma_up_to_root(nodes, kids, a_i, ta, oa);
                let nb = lemma_up_to_root(nodes, kids, b_i, tb, y);
                assert(parent_index(nodes, kids[c][ma] as int) == c);
                assert(parent_index(nodes, kids[c][k - 1] as int) == c);
                if na == nb {
                    assert(kids[c].no_duplicates());
                    assert(kids[c][ma] != kids[c][k - 1]);
                } else if na < nb {
                    assert(ancestor(nodes, q, (na + 1) as nat) == c);
                    assert(b.contains(ancestor(nodes, q, (na + 1) as nat)));
                    let z = choose|z: int| 0 <= z < b.len() && b[z] == c;
                    if z == 0 {
                        assert(b[0] == b_i);
                        assert(parent_index(nodes, b_i) == c);
                        lemma_parent_of_root_child(nodes, kids, c, t, k - 1);
                    } else {
                        lemma_root_inside_child(nodes, kids, c, t, k - 1, z);
                    }
                } else {
                    let pa = positions(kids, a_i, ta);
                    assert(ancestor(nodes, q, (nb + 1) as nat) == c);
                    assert(pa.contains(ancestor(nodes, q, (nb + 1) as nat)));
                    let z = choose|z: int| 0 <= z < pa.len() && pa[z] == c;
                    if z == 0 {
                        lemma_parent_of_root_child(nodes, kids, c, t, ma);
                    } else {
                        lemma_root_inside_child(nodes, kids, c, t, ma, z);
                    }
                }
            }
        }
        vstd::seq_lib::lemma_no_dup_in_concat(a, b);
    }
}

/// No child of a shaped subtree is its root.
proof fn lemma_parent_of_root_child(nodes: Seq<EntryModel>, kids: Seq<Seq<usize>>, c: int, t: TreeNode, m: int)
    requires
        shaped(nodes, kids, c, t),
        0 <= m < t.children@.len(),
    ensures
        kids[c][m] as int != c,
{
    let n = t.children@.len();
    let tm = t.children@[m];
    assert(shaped(nodes, kids, kids[c][m] as int, tm));
    lemma_block_inside(kids, c, t, n, m, 0);
    let z: int = child_positions(kids, c, t, m as nat).len() as int + 1;
    assert(positions(kids, c, t)[z] == child_positions(kids, c, t, n)[z - 1]);
    assert(positions(kids, kids[c][m] as int, tm)[0] == kids[c][m] as int);
    lemma_root_once(nodes, kids, c, t, z);
}

/// The root of a shaped subtree does not occur in a child's subtree.
proof fn lemma_root_inside_child(nodes: Seq<EntryModel>, kids: Seq<Seq<usize>>, c: int, t: TreeNode, m: int, z: int)
    requires
        shaped(nodes, kids, c, t),
        0 <= m < t.children@.len(),
        0 <= z < positions(kids, kids[c][m] as int, t.children@[m]).len(),
    ensures
        positions(kids, kids[c][m] as int, t.children@[m])[z] != c,
{
    let n = t.children@.len();
    lemma_block_inside(kids, c, t, n, m, z);
    let w: int = 1 + child_positions(kids, c, t, m as nat).len() + z;
    assert(positions(kids, c, t)[w] == child_positions(kids, c, t, n)[w - 1]);
    lemma_root_once(nodes, kids, c, t, w);
}

/// Every position of a shaped subtree is a position of the table.
proof fn lemma_positions_in_table(nodes: Seq<EntryModel>, kids: Seq<Seq<usize>>, c: int, t: TreeNode)
    requires
        shaped(nodes, kids, c, t),
    ensures
        forall|j: int| 0 <= j < positions(kids, c, t).len() ==> 0 <= #[trigger] positions(kids, c, t)[j] < nodes.len(),
{
    assert forall|j: int| 0 <= j < positions(kids, c, t).len() implies 0 <= #[trigger] positions(kids, c, t)[j] < nodes.len() by {
        let u = lemma_subtree_at(nodes, kids, c, t, j);
    }
}

/// With distinct paths, the children placed under `i` are listed in
/// increasing order, each below the count of entries placed, and each has
/// `i` as its parent.
proof fn lemma_table_children(nodes: Seq<EntryModel>, entries: Seq<EntryModel>, i: int, m: nat)
    requires
        nodes == entries,
        entries.len() <= usize::MAX,
        m <= entries.len(),
        distinct_paths(entries),
    ensures
        forall|k: int| 0 <= k < table_children(nodes, entries, i, m).len() ==> {
            &&& #[trigger] table_children(nodes, entries, i, m)[k] < m
            &&& parent_index(nodes, table_children(nodes, entries, i, m)[k] as int) == i
        },
        forall|a: int, b: int| 0 <= a < b < table_children(nodes, entries, i, m).len() ==>
            #[trigger] table_children(nodes, entries, i, m)[a] < #[trigger] table_children(nodes, entries, i, m)[b],
    decreases m,
{
    if m > 0 {
        lemma_table_children(nodes, entries, i, (m - 1) as nat);
        let e = entries[m - 1];
        assert forall|j: int| m - 1 < j < nodes.len() implies key_of(#[trigger] nodes[j]) != key_of(e) by {
            assert(key_of(entries[m - 1]) != key_of(entries[j]));
        }
        lemma_last_with_key_prefix(nodes, key_of(e), m - 1);
        let prev = table_children(nodes, entries, i, (m - 1) as nat);
        let cur = table_children(nodes, entries, i, m);
        if cur.len() == prev.len() {
            assert(cur == prev);
        } else {
            assert(cur == prev.push(((m - 1) as int) as usize));
            assert(((m - 1) as int) as usize == m - 1);
            assert(parent_index(nodes, m - 1) == i);
            assert forall|k: int| 0 <= k < cur.len() implies {
                &&& #[trigger] cur[k] < m
                &&& parent_index(nodes, cur[k] as int) == i
            } by {
                if k < prev.len() {
                    assert(cur[k] == prev[k]);
                }
            }
            assert forall|a: int, b: int| 0 <= a < b < cur.len() implies #[trigger] cur[a] < #[trigger] cur[b] by {
                assert(cur[a] == prev[a]);
                if b < prev.len() {
                    assert(cur[b] == prev[b]);
                }
            }
        }
    }
}

/// Entries with distinct paths, among them the root, that name each device
/// and inode once make a tree whose nodes name each device and inode once:
/// a hard-linked file that the walk kept once is counted once.
pub proof fn lemma_built_tree_keys_distinct(root: Seq<char>, entries: Seq<EntryModel>, tree: FileTree)
    requires
        built_from(root, entries, tree),
        entries.len() <= usize::MAX,
        last_with_path(entries, root) is Some,
        distinct_paths(entries),
        forall|a: int, b: int| 0 <= a < b < entries.len() ==> ((#[trigger] entries[a]).device, entries[a].inode)
            != ((#[trigger] entries[b]).device, entries[b].inode),
    ensures
        tree_keys(tree.root).no_duplicates(),
{
    let nodes = table_entries(root, entries);
    assert(nodes == entries);
    let kids = table_kids(nodes, entries);
    let r = last_with_path(nodes, root)->0;
    let t0 = choose|t0: TreeNode| shaped(nodes, kids, r, t0) && cumulated(t0, tree.root);
    assert(kids_parented(nodes, kids)) by {
        assert forall|x: int, k: int| 0 <= x < kids.len() && 0 <= k < kids[x].len() implies parent_index(
            nodes,
            #[trigger] kids[x][k] as int,
        ) == x by {
            lemma_table_children(nodes, entries, x, entries.len());
        }
        assert forall|x: int| 0 <= x < kids.len() implies (#[trigger] kids[x]).no_duplicates() by {
            lemma_table_children(nodes, entries, x, entries.len());
            assert forall|a: int, b: int| 0 <= a < kids[x].len() && 0 <= b < kids[x].len() && a != b implies kids[x][a] != kids[x][b] by {
                if a < b {
                    assert(kids[x][a] < kids[x][b]);
                } else {
                    assert(kids[x][b] < kids[x][a]);
                }
            }
        }
    }
    lemma_positions_distinct(nodes, kids, r, t0);
    lemma_positions_in_table(nodes, kids, r, t0);
    lemma_shaped_keys(nodes, kids, r, t0);
    lemma_cumulated_keys(t0, tree.root);
    let ps = positions(kids, r, t0);
    let ks = tree_keys(tree.root);
    assert forall|a: int, b: int| 0 <= a < ks.len() && 0 <= b < ks.len() && a != b implies ks[a] != ks[b] by {
        assert(ps[a] != ps[b]);
        assert(0 <= ps[a] < nodes.len() && 0 <= ps[b] < nodes.len());
        if ps[a] < ps[b] {
            assert(((entries[ps[a]]).device, entries[ps[a]].inode) != ((entries[ps[b]]).device, entries[ps[b]].inode));
        } else {
            assert(((entries[ps[b]]).device, entries[ps[b]].inode) != ((entries[ps[a]]).device, entries[ps[a]].inode));
        }
    }
}


/// The entry at `m` is placed under the node at `i`: its parent path is the
/// path of the last node with that path, which is `i`.
spec fn resolves_to(nodes: Seq<EntryModel>, m: int, i: int) -> bool {
    parent_of(nodes[m].path) matches Some(pp) && last_with_path(nodes, pp) == Some(i)
}

/// No two entries name the same path, compared as `std::path::Path`
/// compares paths.
pub open spec fn distinct_paths(es: Seq<EntryModel>) -> bool {
    forall|a: int, b: int| 0 <= a < b < es.len() ==> key_of(#[trigger] es[a]) != key_of(#[trigger] es[b])
}

/// Two walks that found the same entries, each path once, perhaps in
/// another order.
pub open spec fn same_entries(e1: Seq<EntryModel>, e2: Seq<EntryModel>) -> bool {
    &&& e1.len() <= usize::MAX
    &&& e2.len() <= usize::MAX
    &&& distinct_paths(e1)
    &&& distinct_paths(e2)
    &&& forall|k: int| 0 <= k < e2.len() ==> e1.contains(#[trigger] e2[k])
    &&& forall|k: int| 0 <= k < e1.len() ==> e2.contains(#[trigger] e1[k])
}

proof fn lemma_last_is_only(nodes: Seq<EntryModel>, i: int, q: Seq<char>)
    requires
        distinct_paths(nodes),
        0 <= i < nodes.len(),
    ensures
        last_with_path(nodes, q) == Some(i) <==> key_of(nodes[i]) == components_of(q),
{
    lemma_last_with_key(nodes, components_of(q));
    if key_of(nodes[i]) == components_of(q) {
        assert forall|j: int| i < j < nodes.len() implies key_of(#[trigger] nodes[j]) != components_of(q) by {
            assert(key_of(nodes[i]) != key_of(nodes[j]));
        }
        lemma_last_with_key_prefix(nodes, components_of(q), i);
    }
}

/// With distinct paths, the children placed under `i` among the first `m`
/// entries are exactly those that resolve to `i`.
proof fn lemma_table_children_exact(nodes: Seq<EntryModel>, i: int, m: nat)
    requires
        nodes.len() <= usize::MAX,
        m <= nodes.len(),
        distinct_paths(nodes),
    ensures
        forall|k: int| 0 <= k < table_children(nodes, nodes, i, m).len() ==> {
            &&& #[trigger] table_children(nodes, nodes, i, m)[k] < m
            &&& resolves_to(nodes, table_children(nodes, nodes, i, m)[k] as int, i)
        },
        forall|j: int| 0 <= j < m && #[trigger] resolves_to(nodes, j, i) ==> table_children(nodes, nodes, i, m).contains(
            j as usize,
        ),
    decreases m,
{
    if m > 0 {
        lemma_table_children_exact(nodes, i, (m - 1) as nat);
        let e = nodes[m - 1];
        lemma_last_is_only(nodes, m - 1, e.path);
        let prev = table_children(nodes, nodes, i, (m - 1) as nat);
        let cur = table_children(nodes, nodes, i, m);
        if resolves_to(nodes, m - 1, i) {
            assert(cur == prev.push(((m - 1) as int) as usize));
            assert(((m - 1) as int) as usize == m - 1);
            assert forall|k: int| 0 <= k < cur.len() implies {
                &&& #[trigger] cur[k] < m
                &&& resolves_to(nodes, cur[k] as int, i)
            } by {
                if k < prev.len() {
                    assert(cur[k] == prev[k]);
                }
            }
            assert forall|j: int| 0 <= j < m && #[trigger] resolves_to(nodes, j, i) implies cur.contains(j as usize) by {
                if j < m - 1 {
                    let y = choose|y: int| 0 <= y < prev.len() && prev[y] == j as usize;
                    assert(cur[y] == prev[y]);
                } else {
                    assert(cur[prev.len() as int] == j as usize);
                }
            }
        } else {
            assert(cur == prev);
        }
    }
}

/// Distinct positions below `b` are at most `b` of them.
proof fn lemma_distinct_fits(p: Seq<usize>, b: nat)
    requires
        distinct(p),
        in_range(p, 0, b as int),
    ensures
        p.len() <= b,
{
    let ps = p.map_values(|v: usize| v as int);
    assert(ps.no_duplicates()) by {
        assert forall|i: int, j: int| 0 <= i < ps.len() && 0 <= j < ps.len() && i != j implies ps[i] != ps[j] by {
            assert(p[i] != p[j]);
        }
    }
    ps.unique_seq_to_set();
    vstd::set_lib::lemma_int_range(0, b as int);
    let range = vstd::set_lib::set_int_range(0, b as int);
    assert(ps.to_set().subset_of(range)) by {
        assert forall|x: int| ps.to_set().contains(x) implies range.contains(x) by {
            let k = choose|k: int| 0 <= k < ps.len() && ps[k] == x;
            assert(0 <= p[k] < b);
        }
    }
    vstd::set_lib::lemma_len_subset(ps.to_set(), range);
}

/// Each child of the node at `ia` in the first walk is, entry for entry, a
/// child of the node at `ib` in the second, and no two of them the same.
proof fn lemma_children_embed(ea: Seq<EntryModel>, eb: Seq<EntryModel>, ia: int, ib: int) -> (p: Seq<usize>)
    requires
        same_entries(ea, eb),
        0 <= ia < ea.len(),
        0 <= ib < eb.len(),
        ea[ia] == eb[ib],
    ensures
        p.len() == table_kids(ea, ea)[ia].len(),
        in_range(p, 0, table_kids(eb, eb)[ib].len() as int),
        distinct(p),
        forall|k: int| 0 <= k < p.len() ==> eb[table_kids(eb, eb)[ib][#[trigger] p[k] as int] as int]
            == ea[table_kids(ea, ea)[ia][k] as int],
{
    let la = table_kids(ea, ea)[ia];
    let lb = table_kids(eb, eb)[ib];
    lemma_table_children_exact(ea, ia, ea.len());
    lemma_table_children_exact(eb, ib, eb.len());
    lemma_table_children(ea, ea, ia, ea.len());
    lemma_table_children(eb, eb, ib, eb.len());
    assert forall|k: int| #![trigger la[k]] 0 <= k < la.len() implies exists|j: int|
        0 <= j < lb.len() && eb[#[trigger] lb[j] as int] == ea[la[k] as int] by {
        let q = la[k] as int;
        assert(resolves_to(ea, q, ia));
        let pp = parent_of(ea[q].path)->0;
        lemma_last_is_only(ea, ia, pp);
        assert(ea.contains(ea[q]));
        assert(eb.contains(ea[q]));
        let m = choose|m: int| 0 <= m < eb.len() && eb[m] == ea[q];
        lemma_last_is_only(eb, ib, pp);
        assert(resolves_to(eb, m, ib));
        assert(lb.contains(m as usize));
        let j = choose|j: int| 0 <= j < lb.len() && lb[j] == m as usize;
        assert(eb[lb[j] as int] == ea[la[k] as int]);
    }
    assert(distinct(lb)) by {
        assert forall|a: int, b: int| 0 <= a < lb.len() && 0 <= b < lb.len() && a != b implies #[trigger] lb[a] != #[trigger] lb[b] by {
            if a < b {
                assert(lb[a] < lb[b]);
            } else {
                assert(lb[b] < lb[a]);
            }
        }
    }
    assert(in_range(lb, 0, eb.len() as int)) by {
        assert forall|k: int| 0 <= k < lb.len() implies 0 <= #[trigger] lb[k] < eb.len() by {
            assert(lb[k] < eb.len());
        }
    }
    lemma_distinct_fits(lb, eb.len());
    let p = Seq::new(
        la.len(),
        |k: int| (choose|j: int| 0 <= j < lb.len() && eb[#[trigger] lb[j] as int] == ea[la[k] as int]) as usize,
    );
    assert forall|k: int| 0 <= k < p.len() implies 0 <= #[trigger] p[k] < lb.len() && eb[lb[p[k] as int] as int] == ea[la[k] as int] by {
        let j = choose|j: int| 0 <= j < lb.len() && eb[#[trigger] lb[j] as int] == ea[la[k] as int];
        assert(p[k] as int == j);
    }
    assert forall|a: int, b: int| 0 <= a < p.len() && 0 <= b < p.len() && a != b implies #[trigger] p[a] != #[trigger] p[b] by {
        if p[a] == p[b] {
            assert(ea[la[a] as int] == ea[la[b] as int]);
            assert(la[a] < ea.len() && la[b] < ea.len());
            if la[a] < la[b] {
                assert(key_of(ea[la[a] as int]) != key_of(ea[la[b] as int]));
            } else if la[b] < la[a] {
                assert(key_of(ea[la[b] as int]) != key_of(ea[la[a] as int]));
            } else if a < b {
                assert(la[a] < la[b]);
            } else {
                assert(la[b] < la[a]);
            }
        }
    }
    p
}

proof fn lemma_shaped_order_free(
    e1: Seq<EntryModel>,
    e2: Seq<EntryModel>,
    i1: int,
    t1: TreeNode,
    i2: int,
    t2: TreeNode,
)
    requires
        same_entries(e1, e2),
        shaped(e1, table_kids(e1, e1), i1, t1),
        shaped(e2, table_kids(e2, e2), i2, t2),
        e1[i1] == e2[i2],
    ensures
        same_up_to_order(t1, t2),
    decreases t1,
{
    let k1 = table_kids(e1, e1);
    let k2 = table_kids(e2, e2);
    let l1 = k1[i1];
    let l2 = k2[i2];
    let p = lemma_children_embed(e2, e1, i2, i1);
    let back = lemma_children_embed(e1, e2, i1, i2);
    lemma_distinct_fits(p, l1.len());
    lemma_distinct_fits(back, l2.len());
    let n = t1.children@.len();
    assert(n == l1.len() && n == l2.len());
    assert forall|k: int| 0 <= k < n implies same_up_to_order(
        t1.children@[p[k] as int],
        #[trigger] t2.children@[k],
    ) by {
        assert(0 <= p[k] < n);
        assert(shaped(e1, k1, l1[p[k] as int] as int, t1.children@[p[k] as int]));
        assert(shaped(e2, k2, l2[k] as int, t2.children@[k]));
        assert(e1[l1[p[k] as int] as int] == e2[l2[k] as int]);
        lemma_shaped_order_free(e1, e2, l1[p[k] as int] as int, t1.children@[p[k] as int], l2[k] as int, t2.children@[k]);
    }
    assert(is_arrangement(p, n));
}

proof fn lemma_cumulated_order_free(a0: TreeNode, b0: TreeNode, a: TreeNode, b: TreeNode)
    requires
        same_up_to_order(a0, b0),
        cumulated(a0, a),
        cumulated(b0, b),
    ensures
        same_up_to_order(a, b),
    decreases a0,
{
    lemma_same_totals(a0, b0);
    let n = a0.children@.len();
    let p = choose|p: Seq<usize>|
        #[trigger] is_arrangement(p, a0.children@.len()) && forall|k: int|
            0 <= k < a0.children@.len() ==> same_up_to_order(
                a0.children@[p[k] as int],
                #[trigger] b0.children@[k],
            );
    assert forall|k: int| 0 <= k < n implies same_up_to_order(a.children@[p[k] as int], #[trigger] b.children@[k]) by {
        assert(same_up_to_order(a0.children@[p[k] as int], b0.children@[k]));
        assert(cumulated(a0.children@[p[k] as int], a.children@[p[k] as int]));
        assert(cumulated(b0.children@[k], b.children@[k]));
        lemma_cumulated_order_free(a0.children@[p[k] as int], b0.children@[k], a.children@[p[k] as int], b.children@[k]);
    }
    assert(is_arrangement(p, a.children@.len()));
}

/// The order in which the walk found the entries, which the number of its
/// threads decides, shapes only the order of children: the same entries,
/// each path once and the root among them, make the same tree up to the
/// order of children, with the same totals.
pub proof fn lemma_build_order_free(
    root: Seq<char>,
    e1: Seq<EntryModel>,
    e2: Seq<EntryModel>,
    t1: FileTree,
    t2: FileTree,
)
    requires
        built_from(root, e1, t1),
        built_from(root, e2, t2),
        same_entries(e1, e2),
        last_with_path(e1, root) is Some,
    ensures
        same_up_to_order(t1.root, t2.root),
        t1.total_size == t2.total_size,
        t1.total_files == t2.total_files,
        t1.total_dirs == t2.total_dirs,
{
    lemma_last_with_key(e1, components_of(root));
    lemma_last_with_key(e2, components_of(root));
    let r1 = last_with_path(e1, root)->0;
    assert(e1.contains(e1[r1]));
    assert(e2.contains(e1[r1]));
    let m = choose|m: int| 0 <= m < e2.len() && e2[m] == e1[r1];
    lemma_last_is_only(e2, m, root);
    let r2 = last_with_path(e2, root)->0;
    assert(r2 == m);
    assert(table_entries(root, e1) == e1);
    assert(table_entries(root, e2) == e2);
    let t10 = choose|t0: TreeNode| shaped(e1, table_kids(e1, e1), r1, t0) && cumulated(t0, t1.root);
    let t20 = choose|t0: TreeNode| shaped(e2, table_kids(e2, e2), r2, t0) && cumulated(t0, t2.root);
    lemma_shaped_order_free(e1, e2, r1, t10, r2, t20);
    lemma_cumulated_order_free(t10, t20, t1.root, t2.root);
    lemma_same_totals(t1.root, t2.root);
}

} // verus!
