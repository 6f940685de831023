use vstd::prelude::*;
use crate::file_node::FileNode;
use vstd::relations::{sorted_by, total_ordering};
use vstd::seq_lib::{group_to_multiset_ensures, lemma_multiset_commutative, lemma_sorted_unique, to_multiset_build, to_multiset_remove};

verus! {

/// The metric by which the children of the viewed directory are ordered.
#[derive(Debug, Clone, Copy, PartialEq, Eq, Structural)]
pub enum SortMode {
    Size,
    ModifiedTime,
    ItemCount,
}

impl SortMode {
    /// The mode that follows this one in the cycle size, modified time, item count.
    pub open spec fn spec_next(self) -> SortMode {
        match self {
            SortMode::Size => SortMode::ModifiedTime,
            SortMode::ModifiedTime => SortMode::ItemCount,
            SortMode::ItemCount => SortMode::Size,
        }
    }

    pub fn next(&self) -> (r: SortMode)
        ensures
            r == self.spec_next(),
    {
        match self {
            SortMode::Size => SortMode::ModifiedTime,
            SortMode::ModifiedTime => SortMode::ItemCount,
            SortMode::ItemCount => SortMode::Size,
        }
    }

    /// The short label shown in status messages.
    pub open spec fn spec_name(self) -> Seq<char> {
        match self {
            SortMode::Size => "size"@,
            SortMode::ModifiedTime => "mtime"@,
            SortMode::ItemCount => "count"@,
        }
    }

    pub fn name(&self) -> (r: &'static str)
        ensures
            r@ == self.spec_name(),
    {
        match self {
            SortMode::Size => "size",
            SortMode::ModifiedTime => "mtime",
            SortMode::ItemCount => "count",
        }
    }
}

/// The order on `(key, id)` pairs: by key in the given direction, and by id,
/// always ascending, among equal keys.
pub open spec fn pair_leq(ascending: bool) -> spec_fn((i128, usize), (i128, usize)) -> bool {
    |a: (i128, usize), b: (i128, usize)|
        if a.0 == b.0 {
            a.1 <= b.1
        } else if ascending {
            a.0 < b.0
        } else {
            a.0 > b.0
        }
}

pub(crate) proof fn lemma_pair_leq_total(ascending: bool)
    ensures
        total_ordering(pair_leq(ascending)),
{
}

fn pair_le(a: (i128, usize), b: (i128, usize), ascending: bool) -> (r: bool)
    ensures
        r == pair_leq(ascending)(a, b),
{
    if a.0 == b.0 {
        a.1 <= b.1
    } else if ascending {
        a.0 < b.0
    } else {
        a.0 > b.0
    }
}

fn merge(a: Vec<(i128, usize)>, b: Vec<(i128, usize)>, ascending: bool) -> (r: Vec<(i128, usize)>)
    requires
        sorted_by(a@, pair_leq(ascending)),
        sorted_by(b@, pair_leq(ascending)),
    ensures
        sorted_by(r@, pair_leq(ascending)),
        r@.to_multiset() == a@.to_multiset().add(b@.to_multiset()),
{
    broadcast use group_to_multiset_ensures, vstd::multiset::group_multiset_axioms;

    let ghost leq = pair_leq(ascending);
    proof {
        lemma_pair_leq_total(ascending);
    }
    let mut r: Vec<(i128, usize)> = Vec::new();
    let mut i: usize = 0;
    let mut j: usize = 0;
    while i < a.len() || j < b.len()
        invariant
            leq == pair_leq(ascending),
            total_ordering(leq),
            sorted_by(a@, leq),
            sorted_by(b@, leq),
            i <= a@.len(),
            j <= b@.len(),
            r@.len() == i + j,
            sorted_by(r@, leq),
            r@.to_multiset() == a@.subrange(0, i as int).to_multiset().add(
                b@.subrange(0, j as int).to_multiset(),
            ),
            r@.len() > 0 && i < a@.len() ==> leq(r@.last(), a@[i as int]),
            r@.len() > 0 && j < b@.len() ==> leq(r@.last(), b@[j as int]),
        decreases a@.len() + b@.len() - i - j,
    {
        let take_a = j >= b.len() || (i < a.len() && pair_le(a[i], b[j], ascending));
        let x = if take_a {
            a[i]
        } else {
            b[j]
        };
        proof {
            if !take_a && i < a@.len() {
                assert(leq(b@[j as int], a@[i as int]));
            }
            assert forall|k: int| 0 <= k < r@.len() implies #[trigger] leq(r@[k], x) by {
                if k < r@.len() - 1 {
                    assert(leq(r@[k], r@.last()));
                }
            }
        }
        let ghost old_r = r@;
        r.push(x);
        proof {
            assert forall|p: int, q: int| 0 <= p < q < r@.len() implies #[trigger] leq(
                r@[p],
                r@[q],
            ) by {
                if q < r@.len() - 1 {
                    assert(leq(old_r[p], old_r[q]));
                }
            }
        }
        if take_a {
            proof {
                assert(a@.subrange(0, i + 1) =~= a@.subrange(0, i as int).push(a@[i as int]));
                assert(r@ =~= old_r.push(x));
                to_multiset_build(old_r, x);
                to_multiset_build(a@.subrange(0, i as int), a@[i as int]);
                assert(r@.to_multiset() =~= a@.subrange(0, i + 1).to_multiset().add(
                    b@.subrange(0, j as int).to_multiset(),
                ));
            }
            i = i + 1;
        } else {
            proof {
                assert(b@.subrange(0, j + 1) =~= b@.subrange(0, j as int).push(b@[j as int]));
                assert(r@ =~= old_r.push(x));
                to_multiset_build(old_r, x);
                to_multiset_build(b@.subrange(0, j as int), b@[j as int]);
                assert(r@.to_multiset() =~= a@.subrange(0, i as int).to_multiset().add(
                    b@.subrange(0, j + 1).to_multiset(),
                ));
            }
            j = j + 1;
        }
    }
    proof {
        assert(a@.subrange(0, i as int) =~= a@);
        assert(b@.subrange(0, j as int) =~= b@);
    }
    r
}

fn merge_sort(v: &Vec<(i128, usize)>, lo: usize, hi: usize, ascending: bool) -> (r: Vec<
    (i128, usize),
>)
    requires
        lo <= hi <= v@.len(),
    ensures
        sorted_by(r@, pair_leq(ascending)),
        r@.to_multiset() == v@.subrange(lo as int, hi as int).to_multiset(),
    decreases hi - lo,
{
    broadcast use group_to_multiset_ensures;

    if hi - lo <= 1 {
        let mut r: Vec<(i128, usize)> = Vec::new();
        if hi > lo {
            r.push(v[lo]);
            proof {
                assert(v@.subrange(lo as int, hi as int) =~= seq![v@[lo as int]]);
                assert(seq![v@[lo as int]] =~= Seq::<(i128, usize)>::empty().push(v@[lo as int]));
            }
        } else {
            proof {
                assert(v@.subrange(lo as int, hi as int) =~= Seq::<(i128, usize)>::empty());
            }
        }
        r
    } else {
        let mid = lo + (hi - lo) / 2;
        let left = merge_sort(v, lo, mid, ascending);
        let right = merge_sort(v, mid, hi, ascending);
        proof {
            assert(v@.subrange(lo as int, hi as int) =~= v@.subrange(lo as int, mid as int)
                + v@.subrange(mid as int, hi as int));
            lemma_multiset_commutative(
                v@.subrange(lo as int, mid as int),
                v@.subrange(mid as int, hi as int),
            );
        }
        merge(left, right, ascending)
    }
}

/// Sorts `(key, id)` pairs by key in the given direction, ties by id.
pub fn sort_pairs(v: &Vec<(i128, usize)>, ascending: bool) -> (r: Vec<(i128, usize)>)
    ensures
        r@ == v@.sort_by(pair_leq(ascending)),
{
    let r = merge_sort(v, 0, v.len(), ascending);
    proof {
        assert(v@.subrange(0, v@.len() as int) =~= v@);
        lemma_pair_leq_total(ascending);
        v@.lemma_sort_by_ensures(pair_leq(ascending));
        lemma_sorted_unique(r@, v@.sort_by(pair_leq(ascending)), pair_leq(ascending));
    }
    r
}

/// The key of an absent modification time: one below the earliest time an
/// `i64` holds.
pub const NO_TIME_KEY: i128 = -9_223_372_036_854_775_809;

/// The key by which `mode` orders a node: its size, its modification time
/// (an absent time below every present one), or its number of children.
pub open spec fn sort_key(n: FileNode, mode: SortMode) -> i128 {
    match mode {
        SortMode::Size => n.size as i128,
        SortMode::ModifiedTime => match n.modified_time {
            None => NO_TIME_KEY,
            Some(t) => t as i128,
        },
        SortMode::ItemCount => n.children@.len() as i128,
    }
}

pub fn node_sort_key(n: &FileNode, mode: SortMode) -> (r: i128)
    ensures
        r == sort_key(*n, mode),
{
    match mode {
        SortMode::Size => n.size as i128,
        SortMode::ModifiedTime => match n.modified_time {
            None => NO_TIME_KEY,
            Some(t) => t as i128,
        },
        SortMode::ItemCount => n.children.len() as i128,
    }
}

/// A node id with its key under `mode`.
pub open spec fn child_pair(nodes: Seq<FileNode>, mode: SortMode) -> spec_fn(usize) -> (i128, usize) {
    |c: usize| (sort_key(nodes[c as int], mode), c)
}

/// Orders node ids by their key under `mode` in the given direction; among
/// equal keys the lower id comes first.
pub open spec fn child_leq(nodes: Seq<FileNode>, mode: SortMode, ascending: bool) -> spec_fn(
    usize,
    usize,
) -> bool {
    |a: usize, b: usize|
        pair_leq(ascending)((sort_key(nodes[a as int], mode), a), (sort_key(nodes[b as int], mode), b))
}

/// The ids in the order that sorting by `mode` in the given direction gives.
pub open spec fn sorted_ids(nodes: Seq<FileNode>, ids: Seq<usize>, mode: SortMode, ascending: bool) -> Seq<
    usize,
> {
    ids.sort_by(child_leq(nodes, mode, ascending))
}

pub proof fn lemma_child_leq_total(nodes: Seq<FileNode>, mode: SortMode, ascending: bool)
    ensures
        total_ordering(child_leq(nodes, mode, ascending)),
{
}

/// Ids that are already in the order of `mode` and direction stay as they are.
pub proof fn lemma_sorted_ids_fixed(nodes: Seq<FileNode>, ids: Seq<usize>, mode: SortMode, ascending: bool)
    requires
        sorted_by(ids, child_leq(nodes, mode, ascending)),
    ensures
        sorted_ids(nodes, ids, mode, ascending) == ids,
{
    lemma_child_leq_total(nodes, mode, ascending);
    ids.lemma_sort_by_ensures(child_leq(nodes, mode, ascending));
    lemma_sorted_unique(
        ids.sort_by(child_leq(nodes, mode, ascending)),
        ids,
        child_leq(nodes, mode, ascending),
    );
}

/// Sorting keeps the ids, and the result is in the order asked for.
pub proof fn lemma_sorted_ids(nodes: Seq<FileNode>, ids: Seq<usize>, mode: SortMode, ascending: bool)
    ensures
        sorted_ids(nodes, ids, mode, ascending).to_multiset() == ids.to_multiset(),
        sorted_by(sorted_ids(nodes, ids, mode, ascending), child_leq(nodes, mode, ascending)),
{
    lemma_child_leq_total(nodes, mode, ascending);
    ids.lemma_sort_by_ensures(child_leq(nodes, mode, ascending));
}

proof fn lemma_project_multiset(x: Seq<(i128, usize)>, y: Seq<(i128, usize)>)
    requires
        x.to_multiset() == y.to_multiset(),
    ensures
        x.map_values(|p: (i128, usize)| p.1).to_multiset() == y.map_values(
            |p: (i128, usize)| p.1,
        ).to_multiset(),
    decreases x.len(),
{
    broadcast use group_to_multiset_ensures, vstd::multiset::group_multiset_axioms;

    let px = x.map_values(|p: (i128, usize)| p.1);
    let py = y.map_values(|p: (i128, usize)| p.1);
    if x.len() == 0 {
        assert(y.to_multiset().len() == 0);
        assert(px =~= Seq::<usize>::empty());
        assert(py =~= Seq::<usize>::empty());
    } else {
        let e = x.last();
        let x2 = x.drop_last();
        assert(x =~= x2.push(e));
        to_multiset_build(x2, e);
        assert(x.to_multiset().count(e) > 0);
        assert(y.contains(e));
        let j = choose|j: int| 0 <= j < y.len() && y[j] == e;
        let y2 = y.remove(j);
        to_multiset_remove(y, j);
        assert(x2.to_multiset() =~= y2.to_multiset());
        lemma_project_multiset(x2, y2);
        let px2 = x2.map_values(|p: (i128, usize)| p.1);
        let py2 = y2.map_values(|p: (i128, usize)| p.1);
        assert(px =~= px2.push(e.1));
        to_multiset_build(px2, e.1);
        assert(py2 =~= py.remove(j));
        to_multiset_remove(py, j);
        assert(py.to_multiset().count(e.1) > 0);
        assert(py.to_multiset() =~= py2.to_multiset().insert(e.1));
    }
}

/// Orders the given child ids of a directory by `mode` in the given
/// direction.
pub fn sort_children(nodes: &Vec<FileNode>, ids: &Vec<usize>, mode: SortMode, ascending: bool) -> (r:
    Vec<usize>)
    requires
        forall|k: int| 0 <= k < ids@.len() ==> #[trigger] ids@[k] < nodes@.len(),
    ensures
        r@ == sorted_ids(nodes@, ids@, mode, ascending),
{
    broadcast use group_to_multiset_ensures;

    let mut pairs: Vec<(i128, usize)> = Vec::new();
    let mut k: usize = 0;
    while k < ids.len()
        invariant
            k <= ids@.len(),
            forall|q: int| 0 <= q < ids@.len() ==> #[trigger] ids@[q] < nodes@.len(),
            pairs@ =~= ids@.subrange(0, k as int).map_values(child_pair(nodes@, mode)),
        decreases ids@.len() - k,
    {
        let c = ids[k];
        let key = node_sort_key(&nodes[c], mode);
        let ghost before = pairs@;
        pairs.push((key, c));
        proof {
            assert(ids@.subrange(0, k + 1) =~= ids@.subrange(0, k as int).push(c));
            assert(key == sort_key(nodes@[c as int], mode));
            assert((key, c) == child_pair(nodes@, mode)(c));
            assert(pairs@ =~= before.push(child_pair(nodes@, mode)(c)));
        }
        k = k + 1;
        proof {
            assert(pairs@ =~= ids@.subrange(0, k as int).map_values(child_pair(nodes@, mode)));
        }
    }
    let sp = sort_pairs(&pairs, ascending);
    proof {
        lemma_pair_leq_total(ascending);
        pairs@.lemma_sort_by_ensures(pair_leq(ascending));
        assert forall|q: int| 0 <= q < sp@.len() implies #[trigger] sp@[q] == child_pair(nodes@, mode)(sp@[q].1) by {
            assert(sp@.to_multiset().count(sp@[q]) > 0);
            assert(pairs@.contains(sp@[q]));
        }
    }
    let mut r: Vec<usize> = Vec::new();
    let mut q: usize = 0;
    while q < sp.len()
        invariant
            q <= sp@.len(),
            r@ =~= sp@.subrange(0, q as int).map_values(|p: (i128, usize)| p.1),
        decreases sp@.len() - q,
    {
        r.push(sp[q].1);
        q = q + 1;
        proof {
            assert(r@ =~= sp@.subrange(0, q as int).map_values(|p: (i128, usize)| p.1));
        }
    }
    proof {
        let leq = child_leq(nodes@, mode, ascending);
        assert(sp@.subrange(0, q as int) =~= sp@);
        assert(ids@.subrange(0, k as int) =~= ids@);
        assert(pairs@.map_values(|p: (i128, usize)| p.1) =~= ids@);
        lemma_project_multiset(sp@, pairs@);
        assert forall|a: int, b: int| 0 <= a < b < r@.len() implies #[trigger] leq(r@[a], r@[b]) by {
            assert(pair_leq(ascending)(sp@[a], sp@[b]));
            assert(sp@[a] == child_pair(nodes@, mode)(sp@[a].1));
            assert(sp@[b] == child_pair(nodes@, mode)(sp@[b].1));
        }
        lemma_child_leq_total(nodes@, mode, ascending);
        ids@.lemma_sort_by_ensures(leq);
        lemma_sorted_unique(r@, ids@.sort_by(leq), leq);
    }
    r
}

} // verus!
