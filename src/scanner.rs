use vstd::prelude::*;
use vstd::relations::sorted_by;
use vstd::seq_lib::group_to_multiset_ensures;
use crate::file_node::{arena_ok, clamp_u64, lemma_sizes_total_nonneg, path_view, sizes_total, FileNode, Tree};
use crate::path_index::{paths_view, PathIndex};
use crate::sort::{pair_leq, sort_pairs};

verus! {

/// What a stat of an entry gave.
#[derive(Debug, Clone)]
pub struct Metadata {
    pub len: u64,
    pub is_file: bool,
    pub is_dir: bool,
    /// Nanoseconds since the Unix epoch, absent when it could not be read.
    pub modified_time: Option<i64>,
}

/// One entry that the walk yielded.
#[derive(Debug, Clone)]
pub struct Entry {
    /// The components of the entry's path.
    pub path: Vec<String>,
    /// The identity of the volume the entry lies on, where it is known.
    pub volume: Option<u64>,
    /// The entry's metadata, absent when it could not be read.
    pub metadata: Option<Metadata>,
}

/// One result of the walk.
#[derive(Debug, Clone)]
pub enum WalkItem {
    /// The walk could not enumerate an entry.
    Failed,
    Found(Entry),
}

/// The directory at which a scan starts.
#[derive(Debug, Clone)]
pub struct ScanRoot {
    pub path: Vec<String>,
    pub name: String,
    pub modified_time: Option<i64>,
    pub volume: Option<u64>,
}

/// Whether the scan looks at an entry at all: the root itself is skipped, and
/// so is an entry on another volume when the scan keeps to one file system and
/// both volumes are known.
pub open spec fn considered(root: ScanRoot, e: Entry, one_file_system: bool) -> bool {
    &&& path_view(e.path@) != path_view(root.path@)
    &&& !(one_file_system && root.volume is Some && e.volume is Some && root.volume
        != e.volume)
}

pub open spec fn is_error(root: ScanRoot, item: WalkItem, one_file_system: bool) -> bool {
    match item {
        WalkItem::Failed => true,
        WalkItem::Found(e) => considered(root, e, one_file_system) && e.metadata is None,
    }
}

/// Whether an item becomes a node, provided its parent directory is in the tree.
pub open spec fn is_recorded(root: ScanRoot, item: WalkItem, one_file_system: bool) -> bool {
    match item {
        WalkItem::Failed => false,
        WalkItem::Found(e) => considered(root, e, one_file_system) && e.metadata is Some
            && e.path@.len() > 0,
    }
}

/// The number of items that could not be read.
pub open spec fn error_total(root: ScanRoot, items: Seq<WalkItem>, one_file_system: bool) -> nat
    decreases items.len(),
{
    if items.len() == 0 {
        0
    } else {
        error_total(root, items.drop_last(), one_file_system) + if is_error(
            root,
            items.last(),
            one_file_system,
        ) {
            1nat
        } else {
            0nat
        }
    }
}

/// The bytes an entry contributes on its own: its length if it is a file.
pub open spec fn own_size(m: Metadata) -> u64 {
    if m.is_file {
        m.len
    } else {
        0
    }
}

pub open spec fn item_path(item: WalkItem) -> Seq<String> {
    match item {
        WalkItem::Found(e) => e.path@,
        WalkItem::Failed => Seq::empty(),
    }
}

/// The path of an item's parent directory.
pub open spec fn parent_view(item: WalkItem) -> Seq<Seq<char>> {
    path_view(item_path(item).drop_last())
}

/// A node stands for an item: same path, its name is the last component,
/// same kind and time, and a file has the item's own size.
pub open spec fn node_of_item(n: FileNode, item: WalkItem) -> bool {
    match item {
        WalkItem::Found(e) => match e.metadata {
            Some(m) => {
                &&& n.path@ == e.path@
                &&& e.path@.len() > 0
                &&& n.name == e.path@.last()
                &&& n.is_dir == m.is_dir
                &&& n.modified_time == m.modified_time
                &&& n.error_count == 0
                &&& !m.is_dir ==> n.size == own_size(m)
            },
            None => false,
        },
        WalkItem::Failed => false,
    }
}

fn is_considered(root: &ScanRoot, e: &Entry, one_file_system: bool) -> (r: bool)
    ensures
        r == considered(*root, *e, one_file_system),
{
    if crate::path_index::path_prefix_eq(&e.path, &root.path, root.path.len()) {
        proof {
            assert(root.path@.subrange(0, root.path@.len() as int) =~= root.path@);
        }
        return false;
    }
    proof {
        assert(root.path@.subrange(0, root.path@.len() as int) =~= root.path@);
    }
    if one_file_system {
        match (root.volume, e.volume) {
            (Some(a), Some(b)) => a == b,
            _ => true,
        }
    } else {
        true
    }
}

/// Counts the items that could not be read, and lists those that become
/// nodes if their parent does.
fn collect(root: &ScanRoot, items: &Vec<WalkItem>, one_file_system: bool) -> (r: (Vec<usize>, usize))
    ensures
        r.1 == error_total(*root, items@, one_file_system),
        r.0@.len() <= items@.len(),
        forall|q: int|
            0 <= q < r.0@.len() ==> #[trigger] r.0@[q] < items@.len() && is_recorded(
                *root,
                items@[r.0@[q] as int],
                one_file_system,
            ),
        forall|k: int|
            0 <= k < items@.len() && is_recorded(*root, #[trigger] items@[k], one_file_system)
                ==> r.0@.contains(k as usize),
{
    let mut recs: Vec<usize> = Vec::new();
    let mut errors: usize = 0;
    let mut k: usize = 0;
    while k < items.len()
        invariant
            k <= items@.len(),
            errors <= k,
            recs@.len() <= k,
            errors == error_total(*root, items@.subrange(0, k as int), one_file_system),
            forall|q: int|
                0 <= q < recs@.len() ==> #[trigger] recs@[q] < k && is_recorded(
                    *root,
                    items@[recs@[q] as int],
                    one_file_system,
                ),
            forall|j: int|
                0 <= j < k && is_recorded(*root, #[trigger] items@[j], one_file_system)
                    ==> recs@.contains(j as usize),
        decreases items@.len() - k,
    {
        proof {
            assert(items@.subrange(0, k + 1).drop_last() =~= items@.subrange(0, k as int));
        }
        let ghost old_recs = recs@;
        match &items[k] {
            WalkItem::Failed => {
                errors = errors + 1;
            },
            WalkItem::Found(e) => {
                if is_considered(root, e, one_file_system) {
                    match &e.metadata {
                        None => {
                            errors = errors + 1;
                        },
                        Some(_) => {
                            if e.path.len() > 0 {
                                recs.push(k);
                                proof {
                                    assert(recs@.last() == k);
                                }
                            }
                        },
                    }
                }
            },
        }
        proof {
            assert forall|j: int|
                0 <= j <= k && is_recorded(*root, #[trigger] items@[j], one_file_system)
                    implies recs@.contains(j as usize) by {
                if j < k {
                    let q = choose|q: int| 0 <= q < old_recs.len() && old_recs[q] == j as usize;
                    assert(recs@[q] == j as usize);
                } else {
                    assert(recs@.last() == k);
                }
            }
        }
        k = k + 1;
    }
    proof {
        assert(items@.subrange(0, k as int) =~= items@);
    }
    (recs, errors)
}

/// The items in order of depth: `(depth, item index)` for each item that may
/// become a node, shallowest first.
fn depth_order(root: &ScanRoot, items: &Vec<WalkItem>, one_file_system: bool, recs: &Vec<usize>) -> (r:
    Vec<(i128, usize)>)
    requires
        forall|q: int|
            0 <= q < recs@.len() ==> #[trigger] recs@[q] < items@.len() && is_recorded(
                *root,
                items@[recs@[q] as int],
                one_file_system,
            ),
    ensures
        r@.len() == recs@.len(),
        sorted_by(r@, pair_leq(true)),
        forall|t: int| 0 <= t < r@.len() ==> #[trigger] ordered_item(*root, items@, one_file_system, r@[t]),
        forall|q: int| 0 <= q < recs@.len() ==> #[trigger] in_order(r@, recs@[q]),
{
    broadcast use group_to_multiset_ensures;

    let mut pairs: Vec<(i128, usize)> = Vec::new();
    let mut q: usize = 0;
    while q < recs.len()
        invariant
            q <= recs@.len(),
            pairs@.len() == q,
            forall|qq: int|
                0 <= qq < recs@.len() ==> #[trigger] recs@[qq] < items@.len() && is_recorded(
                    *root,
                    items@[recs@[qq] as int],
                    one_file_system,
                ),
            forall|qq: int|
                0 <= qq < q ==> (#[trigger] pairs@[qq]).0 == item_path(items@[recs@[qq] as int]).len()
                    && pairs@[qq].1 == recs@[qq],
        decreases recs@.len() - q,
    {
        let k = recs[q];
        let d = match &items[k] {
            WalkItem::Found(e) => e.path.len(),
            WalkItem::Failed => 0,
        };
        pairs.push((d as i128, k));
        q = q + 1;
    }
    let r = sort_pairs(&pairs, true);
    proof {
        crate::sort::lemma_pair_leq_total(true);
        pairs@.lemma_sort_by_ensures(pair_leq(true));
        assert(r@.len() == r@.to_multiset().len());
        assert(pairs@.len() == pairs@.to_multiset().len());
        assert forall|t: int| 0 <= t < r@.len() implies #[trigger] ordered_item(*root, items@, one_file_system, r@[t]) by {
            assert(r@.to_multiset().count(r@[t]) > 0);
            assert(pairs@.contains(r@[t]));
            let qq = choose|qq: int| 0 <= qq < pairs@.len() && pairs@[qq] == r@[t];
            assert(pairs@[qq].1 == recs@[qq]);
        }
        assert forall|qq: int| 0 <= qq < recs@.len() implies #[trigger] in_order(r@, recs@[qq]) by {
            let x = pairs@[qq];
            assert(pairs@.to_multiset().count(x) > 0);
            assert(r@.to_multiset().count(x) > 0);
            assert(r@.contains(x));
            let t = choose|t: int| 0 <= t < r@.len() && r@[t] == x;
            assert(r@[t].1 == recs@[qq]);
        }
    }
    r
}

/// Whether item `k` has a place in the depth order `r`.
pub open spec fn in_order(r: Seq<(i128, usize)>, k: usize) -> bool {
    exists|t: int| 0 <= t < r.len() && r[t].1 == k
}

/// An entry of the depth order: a recorded item with its path's depth.
pub open spec fn ordered_item(root: ScanRoot, items: Seq<WalkItem>, one_file_system: bool, x: (i128, usize)) -> bool {
    &&& x.1 < items.len()
    &&& is_recorded(root, items[x.1 as int], one_file_system)
    &&& x.0 == item_path(items[x.1 as int]).len()
}

/// The path of each child, less its last component, is its parent's path.
pub open spec fn children_below(nodes: Seq<FileNode>) -> bool {
    forall|i: int, k: int|
        0 <= i < nodes.len() && 0 <= k < nodes[i].children@.len() ==> {
            let c = #[trigger] nodes[i].children@[k];
            &&& nodes[c as int].path@.len() > 0
            &&& path_view(nodes[c as int].path@.drop_last()) == path_view(nodes[i].path@)
        }
}

/// Node `j` is among the children of some node.
pub open spec fn is_filed(nodes: Seq<FileNode>, j: int) -> bool {
    exists|i: int, k: int| 0 <= i < nodes.len() && 0 <= k < nodes[i].children@.len() && #[trigger] nodes[i].children@[k] == j
}

/// Every node but the root is among the children of exactly one node, and
/// there only once.
pub open spec fn filed_once(nodes: Seq<FileNode>) -> bool {
    &&& forall|j: int| 1 <= j < nodes.len() ==> #[trigger] is_filed(nodes, j)
    &&& forall|i1: int, k1: int, i2: int, k2: int|
        0 <= i1 < nodes.len() && 0 <= i2 < nodes.len() && 0 <= k1 < nodes[i1].children@.len() && 0 <= k2
            < nodes[i2].children@.len() && (i1 != i2 || k1 != k2) ==> #[trigger] nodes[i1].children@[k1]
            != #[trigger] nodes[i2].children@[k2]
}

/// The node stands for one of the items that are recorded.
pub open spec fn stands_for_item(root: ScanRoot, items: Seq<WalkItem>, one_file_system: bool, n: FileNode) -> bool {
    exists|k: int|
        0 <= k < items.len() && is_recorded(root, items[k], one_file_system) && #[trigger] node_of_item(
            n,
            items[k],
        )
}

/// Every node but the root stands for a recorded item.
pub open spec fn from_items(root: ScanRoot, items: Seq<WalkItem>, one_file_system: bool, nodes: Seq<FileNode>) -> bool {
    forall|i: int| 1 <= i < nodes.len() ==> #[trigger] stands_for_item(root, items, one_file_system, nodes[i])
}

/// Some node other than the root has the item's path.
pub open spec fn has_path_node(nodes: Seq<FileNode>, item: WalkItem) -> bool {
    exists|j: int| 1 <= j < nodes.len() && path_view((#[trigger] nodes[j]).path@) == path_view(item_path(item))
}

/// No two nodes have the same path.
pub open spec fn paths_distinct(nodes: Seq<FileNode>) -> bool {
    forall|i1: int, i2: int|
        0 <= i1 < nodes.len() && 0 <= i2 < nodes.len() && i1 != i2 ==> path_view(
            (#[trigger] nodes[i1]).path@,
        ) != path_view((#[trigger] nodes[i2]).path@)
}

/// A directory of the tree has the path of the item's parent.
pub open spec fn has_parent_dir(nodes: Seq<FileNode>, item: WalkItem) -> bool {
    exists|i: int|
        0 <= i < nodes.len() && (#[trigger] nodes[i]).is_dir && path_view(nodes[i].path@) == parent_view(
            item,
        )
}

/// The node made for the root of a scan, before its totals are set.
pub open spec fn root_node(root: ScanRoot, n: FileNode) -> bool {
    &&& n.path@ == root.path@
    &&& n.name == root.name
    &&& n.is_dir
    &&& n.modified_time == root.modified_time
}

pub(crate) fn clone_path(p: &Vec<String>) -> (r: Vec<String>)
    ensures
        r@ == p@,
{
    let mut r: Vec<String> = Vec::new();
    let mut i: usize = 0;
    while i < p.len()
        invariant
            i <= p@.len(),
            r@ =~= p@.subrange(0, i as int),
        decreases p@.len() - i,
    {
        r.push(p[i].clone());
        i = i + 1;
    }
    proof {
        assert(p@.subrange(0, i as int) =~= p@);
    }
    r
}

/// What one step of [`link`] keeps: the arena `n0` with the node for item
/// `order[t]` added as `n2`, filed among the children of `p`.
proof fn lemma_link_step(
    root: ScanRoot,
    items: Seq<WalkItem>,
    one_file_system: bool,
    order: Seq<(i128, usize)>,
    t: int,
    n0: Seq<FileNode>,
    n2: Seq<FileNode>,
    p: int,
)
    requires
        sorted_by(order, pair_leq(true)),
        forall|tt: int| 0 <= tt < order.len() ==> #[trigger] ordered_item(root, items, one_file_system, order[tt]),
        0 <= t < order.len(),
        n0.len() >= 1,
        root_node(root, n0[0]),
        arena_ok(n0),
        filed_once(n0),
        children_below(n0),
        from_items(root, items, one_file_system, n0),
        forall|tt: int|
            0 <= tt < t && has_parent_dir(n0, items[order[tt].1 as int]) ==> has_path_node(
                n0,
                #[trigger] items[order[tt].1 as int],
            ),
        0 <= p < n0.len(),
        n0.len() < usize::MAX,
        paths_distinct(n0),
        forall|i: int| 0 <= i < n0.len() ==> path_view((#[trigger] n0[i]).path@) != path_view(item_path(items[order[t].1 as int])),
        n0[p].is_dir,
        path_view(n0[p].path@) == parent_view(items[order[t].1 as int]),
        n2.len() == n0.len() + 1,
        forall|i: int| 0 <= i < n0.len() && i != p ==> n2[i] == n0[i],
        n2[p].path == n0[p].path,
        n2[p].name == n0[p].name,
        n2[p].size == n0[p].size,
        n2[p].is_dir == n0[p].is_dir,
        n2[p].error_count == n0[p].error_count,
        n2[p].modified_time == n0[p].modified_time,
        n2[p].children@ == n0[p].children@.push(n0.len() as usize),
        node_of_item(n2[n0.len() as int], items[order[t].1 as int]),
        n2[n0.len() as int].children@.len() == 0,
    ensures
        root_node(root, n2[0]),
        n2[0].error_count == n0[0].error_count,
        arena_ok(n2),
        filed_once(n2),
        paths_distinct(n2),
        children_below(n2),
        from_items(root, items, one_file_system, n2),
        forall|tt: int|
            0 <= tt < t + 1 && has_parent_dir(n2, items[order[tt].1 as int]) ==> has_path_node(
                n2,
                #[trigger] items[order[tt].1 as int],
            ),
{
    let id = n0.len() as int;
    let k = order[t].1 as int;
    let last = n0[p].children@.len() as int;
    assert(ordered_item(root, items, one_file_system, order[t]));
    assert forall|i: int, q: int|
        0 <= i < n2.len() && 0 <= q < n2[i].children@.len() && !(i == p && q == last) implies i < id && q
        < n0[i].children@.len() && #[trigger] n2[i].children@[q] == n0[i].children@[q] by {
        if i != p && i != id {
            assert(n2[i] == n0[i]);
        }
    }
    assert forall|j: int| 1 <= j < n2.len() implies #[trigger] is_filed(n2, j) by {
        if j == id {
            assert(n2[p].children@[last] == j);
        } else {
            assert(is_filed(n0, j));
            let (i, q) = choose|i: int, q: int|
                0 <= i < n0.len() && 0 <= q < n0[i].children@.len() && #[trigger] n0[i].children@[q] == j;
            if i == p {
                assert(n2[p].children@[q] == j);
            } else {
                assert(n2[i] == n0[i]);
                assert(n2[i].children@[q] == j);
            }
        }
    }
    assert forall|i1: int, k1: int, i2: int, k2: int|
        0 <= i1 < n2.len() && 0 <= i2 < n2.len() && 0 <= k1 < n2[i1].children@.len() && 0 <= k2
            < n2[i2].children@.len() && (i1 != i2 || k1 != k2) implies #[trigger] n2[i1].children@[k1]
        != #[trigger] n2[i2].children@[k2] by {
        if i1 == p && k1 == last {
            if !(i2 == p && k2 == last) {
                assert(n0[i2].children@[k2] < n0.len());
            }
        } else if i2 == p && k2 == last {
            assert(n0[i1].children@[k1] < n0.len());
        } else {
            assert(n0[i1].children@[k1] != n0[i2].children@[k2]);
        }
    }
    assert forall|i: int, q: int|
        0 <= i < n2.len() && 0 <= q < n2[i].children@.len() implies i < #[trigger] n2[i].children@[q]
        < n2.len() by {
        if i != p && i != id {
            assert(n0[i].children@[q] == n2[i].children@[q]);
        } else if i == p && q < n0[p].children@.len() {
            assert(n0[p].children@[q] == n2[p].children@[q]);
        }
    }
    assert forall|i: int| 0 <= i < n2.len() && !(#[trigger] n2[i]).is_dir implies n2[i].children@.len()
        == 0 by {
        if i != p && i != id {
            assert(n2[i] == n0[i]);
        }
    }
    assert forall|i: int, q: int| 0 <= i < n2.len() && 0 <= q < n2[i].children@.len() implies {
        let c = #[trigger] n2[i].children@[q];
        &&& n2[c as int].path@.len() > 0
        &&& path_view(n2[c as int].path@.drop_last()) == path_view(n2[i].path@)
    } by {
        let c = n2[i].children@[q];
        if i == p && q == n0[p].children@.len() {
            assert(c == id);
        } else {
            assert(i != id);
            assert(n2[i].children@[q] == n0[i].children@[q]);
            assert(n0[i].children@[q] == c);
            assert(n2[c as int].path == n0[c as int].path);
        }
    }
    assert forall|i: int| 1 <= i < n2.len() implies #[trigger] stands_for_item(
        root,
        items,
        one_file_system,
        n2[i],
    ) by {
        if i == id {
            assert(node_of_item(n2[i], items[k]));
        } else if i == p {
            assert(stands_for_item(root, items, one_file_system, n0[i]));
            let kk = choose|kk: int|
                0 <= kk < items.len() && is_recorded(root, items[kk], one_file_system)
                    && #[trigger] node_of_item(n0[i], items[kk]);
            assert(node_of_item(n2[i], items[kk]));
        } else {
            assert(n2[i] == n0[i]);
        }
    }
    assert forall|i1: int, i2: int|
        0 <= i1 < n2.len() && 0 <= i2 < n2.len() && i1 != i2 implies path_view((#[trigger] n2[i1]).path@)
        != path_view((#[trigger] n2[i2]).path@) by {
        assert(path_view(n2[id].path@) == path_view(item_path(items[k])));
        if i1 != id && i2 != id {
            assert(n2[i1].path == n0[i1].path);
            assert(n2[i2].path == n0[i2].path);
        } else if i1 == id {
            assert(n2[i2].path == n0[i2].path);
        } else {
            assert(n2[i1].path == n0[i1].path);
        }
    }
    assert forall|tt: int|
        0 <= tt < t + 1 && has_parent_dir(n2, items[order[tt].1 as int]) implies has_path_node(
        n2,
        #[trigger] items[order[tt].1 as int],
    ) by {
        let kt = order[tt].1 as int;
        if tt == t {
            assert(node_of_item(n2[id], items[kt]));
            assert(path_view(n2[id].path@) == path_view(item_path(items[kt])));
        } else {
            assert(ordered_item(root, items, one_file_system, order[tt]));
            assert(pair_leq(true)(order[tt], order[t]));
            let i = choose|i: int|
                0 <= i < n2.len() && (#[trigger] n2[i]).is_dir && path_view(n2[i].path@)
                    == parent_view(items[kt]);
            if i == id {
                assert(path_view(n2[i].path@).len() == n2[i].path@.len());
                assert(parent_view(items[kt]).len() == item_path(items[kt]).len() - 1);
                assert(false);
            }
            assert(n0[i].is_dir && n0[i].path == n2[i].path);
            assert(has_parent_dir(n0, items[kt]));
            assert(has_path_node(n0, items[kt]));
            let j = choose|j: int|
                1 <= j < n0.len() && path_view((#[trigger] n0[j]).path@) == path_view(item_path(items[kt]));
            assert(n2[j].path == n0[j].path);
        }
    }
}

/// Makes the nodes: one for the root, then, in order of depth, one for each
/// item whose parent directory is already a node, filed among its children.
fn link(
    root: &ScanRoot,
    items: &Vec<WalkItem>,
    one_file_system: bool,
    order: &Vec<(i128, usize)>,
    errors: usize,
) -> (nodes: Vec<FileNode>)
    requires
        sorted_by(order@, pair_leq(true)),
        forall|t: int| 0 <= t < order@.len() ==> #[trigger] ordered_item(*root, items@, one_file_system, order@[t]),
        order@.len() < usize::MAX,
    ensures
        nodes@.len() >= 1,
        root_node(*root, nodes@[0]),
        nodes@[0].error_count == errors,
        arena_ok(nodes@),
        filed_once(nodes@),
        paths_distinct(nodes@),
        children_below(nodes@),
        from_items(*root, items@, one_file_system, nodes@),
        forall|t: int|
            0 <= t < order@.len() && has_parent_dir(nodes@, items@[order@[t].1 as int]) ==> has_path_node(
                nodes@,
                #[trigger] items@[order@[t].1 as int],
            ),
{
    let mut top = FileNode::new(clone_path(&root.path), root.name.clone(), 0, true, root.modified_time);
    top.error_count = errors;
    let mut nodes: Vec<FileNode> = Vec::new();
    nodes.push(top);
    let mut index = PathIndex::new(order.len());
    index.insert(Ghost(Seq::empty()), &root.path, 0);
    proof {
        assert(paths_view(nodes@) =~= Seq::empty().push(path_view(root.path@)));
    }
    let mut t: usize = 0;
    while t < order.len()
        invariant
            sorted_by(order@, pair_leq(true)),
            forall|tt: int| 0 <= tt < order@.len() ==> #[trigger] ordered_item(*root, items@, one_file_system, order@[tt]),
            t <= order@.len() < usize::MAX,
            1 <= nodes@.len() <= t + 1,
            root_node(*root, nodes@[0]),
            nodes@[0].error_count == errors,
            arena_ok(nodes@),
            filed_once(nodes@),
            paths_distinct(nodes@),
            children_below(nodes@),
            from_items(*root, items@, one_file_system, nodes@),
            index.indexes(paths_view(nodes@)),
            forall|tt: int|
                0 <= tt < t && has_parent_dir(nodes@, items@[order@[tt].1 as int]) ==> has_path_node(
                    nodes@,
                    #[trigger] items@[order@[tt].1 as int],
                ),
        decreases order@.len() - t,
    {
        let k = order[t].1;
        proof {
            assert(ordered_item(*root, items@, one_file_system, order@[t as int]));
        }
        match &items[k] {
            WalkItem::Found(e) => {
                match &e.metadata {
                    Some(m) => {
                        let plen = e.path.len() - 1;
                        proof {
                            assert(e.path@.subrange(0, plen as int) =~= e.path@.drop_last());
                            assert(e.path@.subrange(0, e.path@.len() as int) =~= e.path@);
                            assert(path_view(root.path@) != path_view(e.path@));
                        }
                        let known = index.find(&nodes, &e.path, e.path.len());
                        if known.is_none() {
                            let parent = index.find(&nodes, &e.path, plen);
                            let ghost n0 = nodes@;
                            if parent.is_some() && nodes[parent.unwrap()].is_dir {
                                let p = parent.unwrap();
                                let id = nodes.len();
                                let size = if m.is_file {
                                    m.len
                                } else {
                                    0
                                };
                                let node = FileNode::new(
                                    clone_path(&e.path),
                                    e.path[plen].clone(),
                                    size,
                                    m.is_dir,
                                    m.modified_time,
                                );
                                nodes.push(node);
                                nodes[p].children.push(id);
                                proof {
                                    lemma_link_step(*root, items@, one_file_system, order@, t as int, n0, nodes@, p as int);
                                }
                                index.insert(Ghost(paths_view(n0)), &e.path, id);
                                proof {
                                    assert(paths_view(nodes@) =~= paths_view(n0).push(path_view(e.path@)));
                                }
                            } else {
                                proof {
                                    if has_parent_dir(nodes@, items@[k as int]) {
                                        let i = choose|i: int|
                                            0 <= i < nodes@.len() && (#[trigger] nodes@[i]).is_dir && path_view(nodes@[i].path@)
                                                == parent_view(items@[k as int]);
                                        assert(parent matches Some(q) && q as int == i);
                                    }
                                }
                            }
                        } else {
                            proof {
                                let j = known.unwrap() as int;
                                assert(j != 0);
                                assert(path_view(nodes@[j].path@) == path_view(item_path(items@[k as int])));
                            }
                        }
                    },
                    None => {},
                }
            },
            WalkItem::Failed => {},
        }
        t = t + 1;
    }
    nodes
}

/// `b` is `a` with, at most, other sizes for directories.
pub open spec fn same_but_dir_sizes(a: Seq<FileNode>, b: Seq<FileNode>) -> bool {
    &&& a.len() == b.len()
    &&& forall|i: int|
        0 <= i < a.len() ==> {
            &&& (#[trigger] b[i]).path == a[i].path
            &&& b[i].name == a[i].name
            &&& b[i].is_dir == a[i].is_dir
            &&& b[i].children == a[i].children
            &&& b[i].error_count == a[i].error_count
            &&& b[i].modified_time == a[i].modified_time
            &&& !a[i].is_dir ==> b[i].size == a[i].size
        }
}

proof fn lemma_sizes_total_frame(a: Seq<FileNode>, b: Seq<FileNode>, ids: Seq<usize>)
    requires
        forall|k: int| 0 <= k < ids.len() ==> a[#[trigger] ids[k] as int].size == b[ids[k] as int].size,
    ensures
        sizes_total(a, ids) == sizes_total(b, ids),
    decreases ids.len(),
{
    if ids.len() > 0 {
        let ids2 = ids.drop_last();
        assert forall|k: int| 0 <= k < ids2.len() implies a[#[trigger] ids2[k] as int].size == b[ids2[k] as int].size by {
            assert(ids2[k] == ids[k]);
        }
        lemma_sizes_total_frame(a, b, ids2);
        assert(a[ids[ids.len() - 1] as int].size == b[ids[ids.len() - 1] as int].size);
    }
}

/// Sets each directory's size to the total of its children's, deepest first.
fn aggregate(nodes: &mut Vec<FileNode>)
    requires
        arena_ok(old(nodes)@),
    ensures
        same_but_dir_sizes(old(nodes)@, final(nodes)@),
        arena_ok(final(nodes)@),
        forall|i: int|
            0 <= i < final(nodes)@.len() && (#[trigger] final(nodes)@[i]).is_dir ==> final(nodes)@[i].size
                == clamp_u64(sizes_total(final(nodes)@, final(nodes)@[i].children@)),
{
    let ghost start = nodes@;
    let mut i: usize = nodes.len();
    while i > 0
        invariant
            i <= nodes@.len(),
            same_but_dir_sizes(start, nodes@),
            arena_ok(nodes@),
            forall|j: int|
                i <= j < nodes@.len() && (#[trigger] nodes@[j]).is_dir ==> nodes@[j].size
                    == clamp_u64(sizes_total(nodes@, nodes@[j].children@)),
        decreases i,
    {
        i = i - 1;
        if nodes[i].is_dir {
            let ghost cs = nodes@[i as int].children@;
            let mut total: u64 = 0;
            let mut q: usize = 0;
            proof {
                assert(cs.subrange(0, 0) =~= Seq::<usize>::empty());
            }
            while q < nodes[i].children.len()
                invariant
                    i < nodes@.len(),
                    arena_ok(nodes@),
                    cs == nodes@[i as int].children@,
                    q <= cs.len(),
                    total == clamp_u64(sizes_total(nodes@, cs.subrange(0, q as int))),
                decreases cs.len() - q,
            {
                let c = nodes[i].children[q];
                proof {
                    assert(c == cs[q as int]);
                    assert(cs.subrange(0, q + 1).drop_last() =~= cs.subrange(0, q as int));
                    lemma_sizes_total_nonneg(nodes@, cs.subrange(0, q as int));
                }
                total = total.saturating_add(nodes[c].size);
                q = q + 1;
            }
            proof {
                assert(cs.subrange(0, q as int) =~= cs);
            }
            let ghost before = nodes@;
            nodes[i].size = total;
            proof {
                assert forall|j: int|
                    i <= j < nodes@.len() && (#[trigger] nodes@[j]).is_dir implies nodes@[j].size
                        == clamp_u64(sizes_total(nodes@, nodes@[j].children@)) by {
                    let ids = nodes@[j].children@;
                    assert forall|k: int| 0 <= k < ids.len() implies before[#[trigger] ids[k] as int].size
                        == nodes@[ids[k] as int].size by {
                        assert(j < ids[k]);
                    }
                    lemma_sizes_total_frame(before, nodes@, ids);
                }
                assert forall|a: int, k: int|
                    0 <= a < nodes@.len() && 0 <= k < nodes@[a].children@.len() implies a
                        < #[trigger] nodes@[a].children@[k] < nodes@.len() by {
                    assert(nodes@[a].children == before[a].children);
                }
                assert forall|a: int| 0 <= a < nodes@.len() && !(#[trigger] nodes@[a]).is_dir implies nodes@[a].children@.len() == 0 by {
                    assert(nodes@[a].children == before[a].children);
                }
                assert(same_but_dir_sizes(start, nodes@)) by {
                    assert forall|a: int| 0 <= a < start.len() implies {
                        &&& (#[trigger] nodes@[a]).path == start[a].path
                        &&& nodes@[a].name == start[a].name
                        &&& nodes@[a].is_dir == start[a].is_dir
                        &&& nodes@[a].children == start[a].children
                        &&& nodes@[a].error_count == start[a].error_count
                        &&& nodes@[a].modified_time == start[a].modified_time
                        &&& !start[a].is_dir ==> nodes@[a].size == start[a].size
                    } by {
                        assert(before[a].children == start[a].children);
                    }
                }
            }
        }
    }
}

proof fn lemma_transfer(root: ScanRoot, items: Seq<WalkItem>, one_file_system: bool, a: Seq<FileNode>, b: Seq<FileNode>)
    requires
        same_but_dir_sizes(a, b),
        a.len() >= 1,
        arena_ok(a),
        filed_once(a),
        paths_distinct(a),
        root_node(root, a[0]),
        children_below(a),
        from_items(root, items, one_file_system, a),
    ensures
        filed_once(b),
        paths_distinct(b),
        root_node(root, b[0]),
        b[0].error_count == a[0].error_count,
        children_below(b),
        from_items(root, items, one_file_system, b),
        forall|item: WalkItem| #[trigger] has_parent_dir(b, item) ==> has_parent_dir(a, item),
        forall|item: WalkItem| #[trigger] has_path_node(a, item) ==> has_path_node(b, item),
{
    assert(b[0].path == a[0].path);
    assert forall|j: int| 1 <= j < b.len() implies #[trigger] is_filed(b, j) by {
        assert(is_filed(a, j));
        let (i, q) = choose|i: int, q: int|
            0 <= i < a.len() && 0 <= q < a[i].children@.len() && #[trigger] a[i].children@[q] == j;
        assert(b[i].children == a[i].children);
        assert(b[i].children@[q] == j);
    }
    assert forall|i1: int, k1: int, i2: int, k2: int|
        0 <= i1 < b.len() && 0 <= i2 < b.len() && 0 <= k1 < b[i1].children@.len() && 0 <= k2
            < b[i2].children@.len() && (i1 != i2 || k1 != k2) implies #[trigger] b[i1].children@[k1]
        != #[trigger] b[i2].children@[k2] by {
        assert(b[i1].children == a[i1].children);
        assert(b[i2].children == a[i2].children);
        assert(a[i1].children@[k1] != a[i2].children@[k2]);
    }
    assert forall|i: int, k: int| 0 <= i < b.len() && 0 <= k < b[i].children@.len() implies {
        let c = #[trigger] b[i].children@[k];
        &&& b[c as int].path@.len() > 0
        &&& path_view(b[c as int].path@.drop_last()) == path_view(b[i].path@)
    } by {
        assert(b[i].children == a[i].children);
        assert(a[i].children@[k] == b[i].children@[k]);
        let c = a[i].children@[k];
        assert(b[c as int].path == a[c as int].path);
    }
    assert forall|i: int| 1 <= i < b.len() implies #[trigger] stands_for_item(root, items, one_file_system, b[i]) by {
        assert(stands_for_item(root, items, one_file_system, a[i]));
        let k = choose|k: int|
            0 <= k < items.len() && is_recorded(root, items[k], one_file_system) && #[trigger] node_of_item(
                a[i],
                items[k],
            );
        assert(node_of_item(b[i], items[k]));
    }
    assert forall|item: WalkItem| #[trigger] has_parent_dir(b, item) implies has_parent_dir(a, item) by {
        let i = choose|i: int|
            0 <= i < b.len() && (#[trigger] b[i]).is_dir && path_view(b[i].path@) == parent_view(item);
        assert(a[i].is_dir && a[i].path == b[i].path);
    }
    assert forall|item: WalkItem| #[trigger] has_path_node(a, item) implies has_path_node(b, item) by {
        let j = choose|j: int|
            1 <= j < a.len() && path_view((#[trigger] a[j]).path@) == path_view(item_path(item));
        assert(b[j].path == a[j].path);
    }
    assert forall|i1: int, i2: int|
        0 <= i1 < b.len() && 0 <= i2 < b.len() && i1 != i2 implies path_view((#[trigger] b[i1]).path@)
        != path_view((#[trigger] b[i2]).path@) by {
        assert(b[i1].path == a[i1].path);
        assert(b[i2].path == a[i2].path);
    }
}

/// What a tree built from the walk's `items` is.
///
/// The root stands for `root` and carries the number of items that could not
/// be read. Each other node stands for a recorded item, and no two nodes have
/// the same path: of several recorded items with one path, the first by depth,
/// then by place in `items`, is kept. Each node but the root is filed under the
/// directory that has its parent's path, among the children of that one
/// directory only and there once; every recorded item whose parent directory is
/// in the tree has its path in the tree. Each directory's size is the total of
/// its children's sizes.
pub open spec fn builds(root: ScanRoot, items: Seq<WalkItem>, one_file_system: bool, tree: Tree) -> bool {
    &&& tree.wf()
    &&& tree.aggregated()
    &&& root_node(root, tree.nodes@[0])
    &&& tree.nodes@[0].error_count == error_total(root, items, one_file_system)
    &&& filed_once(tree.nodes@)
    &&& paths_distinct(tree.nodes@)
    &&& children_below(tree.nodes@)
    &&& from_items(root, items, one_file_system, tree.nodes@)
    &&& forall|k: int|
        0 <= k < items.len() && is_recorded(root, items[k], one_file_system) && has_parent_dir(
            tree.nodes@,
            items[k],
        ) ==> has_path_node(tree.nodes@, #[trigger] items[k])
}

/// Builds the tree of a scan from everything the walk yielded, in any order.
pub fn build_tree(root: &ScanRoot, items: &Vec<WalkItem>, one_file_system: bool) -> (tree: Tree)
    requires
        items@.len() < usize::MAX,
    ensures
        builds(*root, items@, one_file_system, tree),
{
    let (recs, errors) = collect(root, items, one_file_system);
    let order = depth_order(root, items, one_file_system, &recs);
    let mut nodes = link(root, items, one_file_system, &order, errors);
    let ghost linked = nodes@;
    aggregate(&mut nodes);
    proof {
        lemma_transfer(*root, items@, one_file_system, linked, nodes@);
        assert forall|k: int|
            0 <= k < items@.len() && is_recorded(*root, items@[k], one_file_system) && has_parent_dir(
                nodes@,
                items@[k],
            ) implies has_path_node(nodes@, #[trigger] items@[k]) by {
            assert(recs@.contains(k as usize));
            let q = choose|q: int| 0 <= q < recs@.len() && recs@[q] == k as usize;
            assert(in_order(order@, recs@[q]));
            let t = choose|t: int| 0 <= t < order@.len() && order@[t].1 == k as usize;
            assert(has_parent_dir(linked, items@[order@[t].1 as int]));
        }
    }
    Tree { nodes }
}

proof fn lemma_error_total_remove(root: ScanRoot, s: Seq<WalkItem>, one_file_system: bool, j: int)
    requires
        0 <= j < s.len(),
    ensures
        error_total(root, s, one_file_system) == error_total(root, s.remove(j), one_file_system) + if is_error(
            root,
            s[j],
            one_file_system,
        ) {
            1int
        } else {
            0int
        },
    decreases s.len(),
{
    if j == s.len() - 1 {
        assert(s.remove(j) =~= s.drop_last());
    } else {
        lemma_error_total_remove(root, s.drop_last(), one_file_system, j);
        assert(s.remove(j).drop_last() =~= s.drop_last().remove(j));
        assert(s.remove(j).last() == s.last());
    }
}

/// The number of items that could not be read, which the root of the built
/// tree carries, is the same whatever order the walk yields the items in.
pub proof fn lemma_error_total_any_order(
    root: ScanRoot,
    a: Seq<WalkItem>,
    b: Seq<WalkItem>,
    one_file_system: bool,
)
    requires
        a.to_multiset() == b.to_multiset(),
    ensures
        error_total(root, a, one_file_system) == error_total(root, b, one_file_system),
    decreases a.len(),
{
    broadcast use group_to_multiset_ensures;

    if a.len() == 0 {
        assert(b.len() == b.to_multiset().len());
        assert(b =~= Seq::<WalkItem>::empty());
    } else {
        let x = a.last();
        let a2 = a.drop_last();
        assert(a =~= a2.push(x));
        vstd::seq_lib::to_multiset_build(a2, x);
        assert(a.to_multiset().count(x) > 0);
        assert(b.contains(x));
        let j = choose|j: int| 0 <= j < b.len() && b[j] == x;
        vstd::seq_lib::to_multiset_remove(b, j);
        assert(a2.to_multiset() =~= b.remove(j).to_multiset());
        lemma_error_total_any_order(root, a2, b.remove(j), one_file_system);
        lemma_error_total_remove(root, b, one_file_system, j);
    }
}

} // verus!
