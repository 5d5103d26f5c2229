//! Stable ordering of list positions by a key, by merge sort.
//!
//! Positions are ordered by their key and, among equal keys, by their
//! position, so the sorted order is the one a stable sort gives.
use vstd::prelude::*;
use crate::text::{chars_lt, chars_less, lemma_chars_lt_irreflexive, lemma_chars_lt_transitive,
    lemma_chars_lt_total};

verus! {

/// The keys by which positions `0..n` are ordered.
pub enum SortKeys {
    /// Larger sizes first.
    SizeDesc(Vec<u64>),
    /// Names in the order of `str`, smaller first.
    NameAsc(Vec<Vec<char>>),
}

/// The keys as mathematical sequences.
pub enum KeyModel {
    SizeDesc(Seq<u64>),
    NameAsc(Seq<Seq<char>>),
}

impl View for SortKeys {
    type V = KeyModel;

    open spec fn view(&self) -> KeyModel {
        match self {
            SortKeys::SizeDesc(v) => KeyModel::SizeDesc(v@),
            SortKeys::NameAsc(v) => KeyModel::NameAsc(v@.map_values(|n: Vec<char>| n@)),
        }
    }
}

/// The number of positions that the keys order.
pub open spec fn key_count(keys: KeyModel) -> nat {
    match keys {
        KeyModel::SizeDesc(v) => v.len(),
        KeyModel::NameAsc(v) => v.len(),
    }
}

/// Position `i` comes before position `j`: its key goes first, or the keys
/// are equal and `i` is the earlier position.
pub open spec fn precedes(keys: KeyModel, i: int, j: int) -> bool {
    match keys {
        KeyModel::SizeDesc(v) => v[i] > v[j] || (v[i] == v[j] && i < j),
        KeyModel::NameAsc(v) => chars_lt(v[i], v[j]) || (v[i] == v[j] && i < j),
    }
}

/// Every element of `p` is a position below `n`.
pub open spec fn in_range(p: Seq<usize>, lo: int, hi: int) -> bool {
    forall|k: int| 0 <= k < p.len() ==> lo <= #[trigger] p[k] < hi
}

/// `p` lists positions in strictly increasing `precedes` order.
pub open spec fn sorted_by(keys: KeyModel, p: Seq<usize>) -> bool {
    forall|a: int, b: int|
        0 <= a < b < p.len() ==> precedes(keys, #[trigger] p[a] as int, #[trigger] p[b] as int)
}

/// `p` is the stable sorted order of the positions `0..key_count(keys)`.
pub open spec fn is_stable_order(keys: KeyModel, p: Seq<usize>) -> bool {
    &&& p.len() == key_count(keys)
    &&& in_range(p, 0, key_count(keys) as int)
    &&& sorted_by(keys, p)
}

/// No position occurs twice in `p`.
pub open spec fn distinct(p: Seq<usize>) -> bool {
    forall|a: int, b: int| 0 <= a < p.len() && 0 <= b < p.len() && a != b ==> #[trigger] p[a] != #[trigger] p[b]
}

pub proof fn lemma_precedes_irreflexive(keys: KeyModel, i: int)
    ensures
        !precedes(keys, i, i),
{
    match keys {
        KeyModel::SizeDesc(v) => {},
        KeyModel::NameAsc(v) => {
            lemma_chars_lt_irreflexive(v[i]);
        },
    }
}

pub proof fn lemma_precedes_transitive(keys: KeyModel, i: int, j: int, k: int)
    requires
        precedes(keys, i, j),
        precedes(keys, j, k),
    ensures
        precedes(keys, i, k),
{
    match keys {
        KeyModel::SizeDesc(v) => {},
        KeyModel::NameAsc(v) => {
            let (a, b, c) = (v[i], v[j], v[k]);
            if chars_lt(a, b) && chars_lt(b, c) {
                lemma_chars_lt_transitive(a, b, c);
            }
        },
    }
}

pub proof fn lemma_precedes_total(keys: KeyModel, i: int, j: int)
    requires
        i != j,
    ensures
        precedes(keys, i, j) || precedes(keys, j, i),
{
    match keys {
        KeyModel::SizeDesc(v) => {},
        KeyModel::NameAsc(v) => {
            lemma_chars_lt_total(v[i], v[j]);
        },
    }
}

pub proof fn lemma_sorted_distinct(keys: KeyModel, p: Seq<usize>)
    requires
        sorted_by(keys, p),
    ensures
        distinct(p),
{
    assert forall|a: int, b: int|
        0 <= a < p.len() && 0 <= b < p.len() && a != b implies #[trigger] p[a] != #[trigger] p[b] by {
        if a < b {
            assert(precedes(keys, p[a] as int, p[b] as int));
            if p[a] == p[b] {
                lemma_precedes_irreflexive(keys, p[a] as int);
            }
        } else {
            assert(precedes(keys, p[b] as int, p[a] as int));
            if p[a] == p[b] {
                lemma_precedes_irreflexive(keys, p[a] as int);
            }
        }
    }
}

fn precedes_exec(keys: &SortKeys, i: usize, j: usize) -> (r: bool)
    requires
        i < key_count(keys@),
        j < key_count(keys@),
    ensures
        r == precedes(keys@, i as int, j as int),
{
    match keys {
        SortKeys::SizeDesc(v) => v[i] > v[j] || (v[i] == v[j] && i < j),
        SortKeys::NameAsc(v) => {
            if chars_less(&v[i], &v[j]) {
                true
            } else if chars_less(&v[j], &v[i]) {
                false
            } else {
                proof {
                    lemma_chars_lt_total(v@[i as int]@, v@[j as int]@);
                }
                i < j
            }
        },
    }
}

fn merge(keys: &SortKeys, a: Vec<usize>, b: Vec<usize>, lo: usize, mid: usize, hi: usize) -> (r:
    Vec<usize>)
    requires
        lo <= mid <= hi <= key_count(keys@),
        in_range(a@, lo as int, mid as int),
        in_range(b@, mid as int, hi as int),
        sorted_by(keys@, a@),
        sorted_by(keys@, b@),
        a@.len() + b@.len() == hi - lo,
    ensures
        r@.len() == hi - lo,
        in_range(r@, lo as int, hi as int),
        sorted_by(keys@, r@),
{
    let mut out: Vec<usize> = Vec::new();
    let mut i: usize = 0;
    let mut j: usize = 0;
    while i < a.len() || j < b.len()
        invariant
            lo <= mid <= hi <= key_count(keys@),
            in_range(a@, lo as int, mid as int),
            in_range(b@, mid as int, hi as int),
            sorted_by(keys@, a@),
            sorted_by(keys@, b@),
            a@.len() + b@.len() == hi - lo,
            i <= a@.len(),
            j <= b@.len(),
            out@.len() == i + j,
            in_range(out@, lo as int, hi as int),
            sorted_by(keys@, out@),
            forall|x: int, y: int|
                0 <= x < out@.len() && i <= y < a@.len() ==> precedes(
                    keys@,
                    #[trigger] out@[x] as int,
                    #[trigger] a@[y] as int,
                ),
            forall|x: int, y: int|
                0 <= x < out@.len() && j <= y < b@.len() ==> precedes(
                    keys@,
                    #[trigger] out@[x] as int,
                    #[trigger] b@[y] as int,
                ),
        decreases a@.len() + b@.len() - i - j,
    {
        let take_a = if j == b.len() {
            true
        } else if i == a.len() {
            false
        } else {
            precedes_exec(keys, a[i], b[j])
        };
        let ghost old_out = out@;
        if take_a {
            let x = a[i];
            proof {
                assert forall|y: int| j <= y < b@.len() implies precedes(keys@, x as int, #[trigger] b@[y] as int) by {
                    if y > j {
                        assert(precedes(keys@, b@[j as int] as int, b@[y] as int));
                        lemma_precedes_transitive(keys@, x as int, b@[j as int] as int, b@[y] as int);
                    }
                }
                assert forall|y: int| i < y < a@.len() implies precedes(keys@, x as int, #[trigger] a@[y] as int) by {
                    assert(precedes(keys@, a@[i as int] as int, a@[y] as int));
                }
            }
            out.push(x);
            i = i + 1;
        } else {
            let x = b[j];
            proof {
                if i < a@.len() {
                    assert(a@[i as int] != x);
                    lemma_precedes_total(keys@, a@[i as int] as int, x as int);
                }
                assert forall|y: int| i <= y < a@.len() implies precedes(keys@, x as int, #[trigger] a@[y] as int) by {
                    if y > i {
                        assert(precedes(keys@, a@[i as int] as int, a@[y] as int));
                        lemma_precedes_transitive(keys@, x as int, a@[i as int] as int, a@[y] as int);
                    }
                }
                assert forall|y: int| j < y < b@.len() implies precedes(keys@, x as int, #[trigger] b@[y] as int) by {
                    assert(precedes(keys@, b@[j as int] as int, b@[y] as int));
                }
            }
            out.push(x);
            j = j + 1;
        }
        proof {
            assert forall|p: int, q: int| 0 <= p < q < out@.len() implies precedes(
                keys@,
                #[trigger] out@[p] as int,
                #[trigger] out@[q] as int,
            ) by {
                if q == out@.len() - 1 {
                    assert(old_out[p] == out@[p]);
                } else {
                    assert(old_out[p] == out@[p] && old_out[q] == out@[q]);
                }
            }
        }
    }
    out
}

fn sort_range(keys: &SortKeys, lo: usize, hi: usize) -> (r: Vec<usize>)
    requires
        lo <= hi <= key_count(keys@),
    ensures
        r@.len() == hi - lo,
        in_range(r@, lo as int, hi as int),
        sorted_by(keys@, r@),
    decreases hi - lo,
{
    if hi - lo <= 1 {
        let mut v: Vec<usize> = Vec::new();
        if hi - lo == 1 {
            v.push(lo);
        }
        v
    } else {
        let mid = lo + (hi - lo) / 2;
        let a = sort_range(keys, lo, mid);
        let b = sort_range(keys, mid, hi);
        merge(keys, a, b, lo, mid, hi)
    }
}

/// The positions `0..n` of the keys in stable sorted order.
pub fn sort_positions(keys: &SortKeys) -> (r: Vec<usize>)
    ensures
        is_stable_order(keys@, r@),
        distinct(r@),
{
    let n = match keys {
        SortKeys::SizeDesc(v) => v.len(),
        SortKeys::NameAsc(v) => v.len(),
    };
    let r = sort_range(keys, 0, n);
    proof {
        lemma_sorted_distinct(keys@, r@);
    }
    r
}

/// The items rearranged so that position `k` holds `items[perm[k]]`.
pub fn permute<T>(items: Vec<T>, perm: &Vec<usize>) -> (r: Vec<T>)
    requires
        perm@.len() == items@.len(),
        in_range(perm@, 0, items@.len() as int),
        distinct(perm@),
    ensures
        r@.len() == items@.len(),
        forall|k: int| 0 <= k < r@.len() ==> r@[k] == items@[perm@[k] as int],
{
    let n = items.len();
    let ghost orig = items@;
    let mut rest = items;
    let mut slots: Vec<Option<T>> = Vec::new();
    while rest.len() > 0
        invariant
            n == orig.len(),
            rest@.len() + slots@.len() == n,
            rest@ == orig.subrange(0, rest@.len() as int),
            forall|k: int| 0 <= k < slots@.len() ==> #[trigger] slots@[k] == Some(orig[n - 1 - k]),
        decreases rest@.len(),
    {
        let x = rest.pop().unwrap();
        slots.push(Some(x));
    }
    let mut out: Vec<T> = Vec::new();
    let mut k: usize = 0;
    while k < n
        invariant
            n == orig.len(),
            slots@.len() == n,
            perm@.len() == n,
            in_range(perm@, 0, n as int),
            distinct(perm@),
            k <= n,
            out@.len() == k,
            forall|m: int| 0 <= m < k ==> out@[m] == orig[perm@[m] as int],
            forall|x: int|
                0 <= x < n && (forall|m: int| 0 <= m < k ==> perm@[m] != x) ==> #[trigger] slots@[n - 1 - x]
                    == Some(orig[x]),
        decreases n - k,
    {
        let p = perm[k];
        let idx = n - 1 - p;
        assert(forall|m: int| 0 <= m < k ==> perm@[m] != p) by {
            assert forall|m: int| 0 <= m < k implies perm@[m] != p by {
                assert(perm@[m] != perm@[k as int]);
            }
        }
        let slot = slots[idx].take();
        match slot {
            Some(v) => {
                out.push(v);
            },
            None => {
                assert(false);
            },
        }
        k = k + 1;
        proof {
            assert forall|x: int|
                0 <= x < n && (forall|m: int| 0 <= m < k ==> perm@[m] != x) implies #[trigger] slots@[n
                    - 1 - x] == Some(orig[x]) by {
                assert(perm@[k - 1] != x);
                assert(forall|m: int| 0 <= m < k - 1 ==> perm@[m] != x);
            }
        }
    }
    out
}

/// Position `x` occurs in `p`.
pub open spec fn covered(p: Seq<usize>, x: int) -> bool {
    exists|k: int| 0 <= k < p.len() && #[trigger] p[k] as int == x
}

/// Distinct positions below `n`, `n` of them, are all the positions below `n`.
pub proof fn lemma_covers_all(p: Seq<usize>, n: nat)
    requires
        p.len() == n,
        in_range(p, 0, n as int),
        distinct(p),
    ensures
        forall|x: int| 0 <= x < n ==> #[trigger] covered(p, x),
{
    let ps = p.map_values(|v: usize| v as int);
    assert(ps.no_duplicates()) by {
        assert forall|i: int, j: int| 0 <= i < ps.len() && 0 <= j < ps.len() && i != j implies ps[i] != ps[j] by {
            assert(p[i] != p[j]);
        }
    }
    ps.unique_seq_to_set();
    vstd::seq_lib::seq_to_set_is_finite(ps);
    vstd::set_lib::lemma_int_range(0, n as int);
    let range = vstd::set_lib::set_int_range(0, n as int);
    assert(ps.to_set().subset_of(range)) by {
        assert forall|x: int| ps.to_set().contains(x) implies range.contains(x) by {
            let k = choose|k: int| 0 <= k < ps.len() && ps[k] == x;
            assert(0 <= p[k] < n);
        }
    }
    vstd::set_lib::lemma_subset_equality(ps.to_set(), range);
    assert forall|x: int| 0 <= x < n implies #[trigger] covered(p, x) by {
        assert(range.contains(x));
        assert(ps.to_set().contains(x));
        let k = choose|k: int| 0 <= k < ps.len() && ps[k] == x;
        assert(p[k] as int == x);
    }
}

/// There is one stable sorted order of a set of keys.
pub proof fn lemma_stable_order_unique(keys: KeyModel, p: Seq<usize>, q: Seq<usize>)
    requires
        is_stable_order(keys, p),
        is_stable_order(keys, q),
    ensures
        p == q,
{
    let n = key_count(keys);
    lemma_sorted_distinct(keys, p);
    lemma_sorted_distinct(keys, q);
    lemma_covers_all(p, n);
    lemma_covers_all(q, n);
    assert forall|k: int| 0 <= k < n implies p[k] == q[k] by {
        lemma_orders_agree_upto(keys, p, q, k);
    }
    assert(p =~= q);
}

proof fn lemma_orders_agree_upto(keys: KeyModel, p: Seq<usize>, q: Seq<usize>, k: int)
    requires
        is_stable_order(keys, p),
        is_stable_order(keys, q),
        distinct(p),
        distinct(q),
        forall|x: int| 0 <= x < key_count(keys) ==> #[trigger] covered(p, x),
        forall|x: int| 0 <= x < key_count(keys) ==> #[trigger] covered(q, x),
        0 <= k < key_count(keys),
    ensures
        p[k] == q[k],
    decreases k,
{
    let n = key_count(keys);
    if k > 0 {
        lemma_orders_agree_upto(keys, p, q, k - 1);
    }
    assert forall|i: int| 0 <= i < k implies p[i] == q[i] by {
        lemma_orders_agree_upto(keys, p, q, i);
    }
    if p[k] != q[k] {
        let a = p[k] as int;
        let b = q[k] as int;
        lemma_precedes_total(keys, a, b);
        if precedes(keys, a, b) {
            assert(covered(q, a));
            let j = choose|j: int| 0 <= j < q.len() && #[trigger] q[j] as int == a;
            if j < k {
                assert(p[j] == q[j]);
                assert(p[j] != p[k]);
            } else {
                assert(precedes(keys, q[k] as int, q[j] as int));
                lemma_precedes_transitive(keys, a, b, a);
                lemma_precedes_irreflexive(keys, a);
            }
        } else {
            assert(covered(p, b));
            let j = choose|j: int| 0 <= j < p.len() && #[trigger] p[j] as int == b;
            if j < k {
                assert(p[j] == q[j]);
                assert(q[j] != q[k]);
            } else {
                assert(precedes(keys, p[k] as int, p[j] as int));
                lemma_precedes_transitive(keys, b, a, b);
                lemma_precedes_irreflexive(keys, b);
            }
        }
    }
}


/// In a stable order of decreasing size, the first position holds the
/// largest size.
pub proof fn lemma_first_is_largest(v: Seq<u64>, p: Seq<usize>)
    requires
        is_stable_order(KeyModel::SizeDesc(v), p),
        v.len() > 0,
    ensures
        forall|j: int| 0 <= j < v.len() ==> #[trigger] v[j] <= v[p[0] as int],
{
    let keys = KeyModel::SizeDesc(v);
    lemma_sorted_distinct(keys, p);
    lemma_covers_all(p, v.len());
    assert forall|j: int| 0 <= j < v.len() implies #[trigger] v[j] <= v[p[0] as int] by {
        assert(covered(p, j));
        let k = choose|k: int| 0 <= k < p.len() && #[trigger] p[k] as int == j;
        if k > 0 {
            assert(precedes(keys, p[0] as int, p[k] as int));
        }
    }
}

} // verus!
