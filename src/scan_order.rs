use vstd::prelude::*;
use vstd::seq_lib::group_to_multiset_ensures;
use crate::file_node::{clamp_u64, path_view, sizes_total, FileNode, Tree};
use crate::scanner::{
    builds, error_total, has_parent_dir, has_path_node, is_filed, is_recorded, item_path,
    lemma_error_total_any_order, node_of_item, parent_view, root_node, stands_for_item, ScanRoot,
    WalkItem,
};

verus! {

/// No two recorded items have the same path.
pub open spec fn item_paths_distinct(root: ScanRoot, items: Seq<WalkItem>, one_file_system: bool) -> bool {
    forall|k1: int, k2: int|
        0 <= k1 < items.len() && 0 <= k2 < items.len() && k1 != k2 && is_recorded(
            root,
            #[trigger] items[k1],
            one_file_system,
        ) && is_recorded(root, #[trigger] items[k2], one_file_system) ==> path_view(item_path(items[k1]))
            != path_view(item_path(items[k2]))
}

proof fn lemma_item_in_other(a: Seq<WalkItem>, b: Seq<WalkItem>, k: int) -> (k2: int)
    requires
        a.to_multiset() == b.to_multiset(),
        0 <= k < a.len(),
    ensures
        0 <= k2 < b.len(),
        b[k2] == a[k],
{
    broadcast use group_to_multiset_ensures;

    assert(a.to_multiset().count(a[k]) > 0);
    assert(b.contains(a[k]));
    choose|k2: int| 0 <= k2 < b.len() && b[k2] == a[k]
}

/// The item that node `i` (not the root) of a built tree stands for.
proof fn lemma_item_of(root: ScanRoot, items: Seq<WalkItem>, one_file_system: bool, t: Tree, i: int) -> (k: int)
    requires
        builds(root, items, one_file_system, t),
        1 <= i < t.nodes@.len(),
    ensures
        0 <= k < items.len(),
        is_recorded(root, items[k], one_file_system),
        node_of_item(t.nodes@[i], items[k]),
        path_view(t.nodes@[i].path@) == path_view(item_path(items[k])),
{
    assert(stands_for_item(root, items, one_file_system, t.nodes@[i]));
    choose|k: int|
        0 <= k < items.len() && is_recorded(root, items[k], one_file_system) && #[trigger] node_of_item(
            t.nodes@[i],
            items[k],
        )
}

/// A node other than the root has a path other than the root's.
proof fn lemma_not_root_path(root: ScanRoot, items: Seq<WalkItem>, one_file_system: bool, t: Tree, i: int)
    requires
        builds(root, items, one_file_system, t),
        1 <= i < t.nodes@.len(),
    ensures
        path_view(t.nodes@[i].path@) != path_view(root.path@),
{
    let k = lemma_item_of(root, items, one_file_system, t, i);
}

/// Two nodes of trees built from the same items, in any order, that have the
/// same path stand for the same item.
proof fn lemma_same_item(
    root: ScanRoot,
    a: Seq<WalkItem>,
    b: Seq<WalkItem>,
    one_file_system: bool,
    t1: Tree,
    t2: Tree,
    i1: int,
    i2: int,
)
    requires
        a.to_multiset() == b.to_multiset(),
        item_paths_distinct(root, b, one_file_system),
        builds(root, a, one_file_system, t1),
        builds(root, b, one_file_system, t2),
        1 <= i1 < t1.nodes@.len(),
        1 <= i2 < t2.nodes@.len(),
        path_view(t1.nodes@[i1].path@) == path_view(t2.nodes@[i2].path@),
    ensures
        t1.nodes@[i1].is_dir == t2.nodes@[i2].is_dir,
        !t1.nodes@[i1].is_dir ==> t1.nodes@[i1].size == t2.nodes@[i2].size,
        t1.nodes@[i1].error_count == 0,
        t2.nodes@[i2].error_count == 0,
{
    let k1 = lemma_item_of(root, a, one_file_system, t1, i1);
    let k2 = lemma_item_of(root, b, one_file_system, t2, i2);
    let k1b = lemma_item_in_other(a, b, k1);
    if k1b != k2 {
        assert(is_recorded(root, b[k1b], one_file_system));
        assert(path_view(item_path(b[k1b])) != path_view(item_path(b[k2])));
    }
}

/// Every path of a tree built from the items is a path of a tree built from
/// the same items in another order, of the same kind.
proof fn lemma_path_in_other(
    root: ScanRoot,
    a: Seq<WalkItem>,
    b: Seq<WalkItem>,
    one_file_system: bool,
    t1: Tree,
    t2: Tree,
    i1: int,
) -> (i2: int)
    requires
        a.to_multiset() == b.to_multiset(),
        item_paths_distinct(root, b, one_file_system),
        builds(root, a, one_file_system, t1),
        builds(root, b, one_file_system, t2),
        0 <= i1 < t1.nodes@.len(),
    ensures
        0 <= i2 < t2.nodes@.len(),
        path_view(t2.nodes@[i2].path@) == path_view(t1.nodes@[i1].path@),
        t2.nodes@[i2].is_dir == t1.nodes@[i1].is_dir,
        (i1 == 0) == (i2 == 0),
    decreases i1,
{
    let n1 = t1.nodes@;
    let n2 = t2.nodes@;
    if i1 == 0 {
        0
    } else {
        assert(is_filed(n1, i1));
        let (i0, q) = choose|i0: int, q: int|
            0 <= i0 < n1.len() && 0 <= q < n1[i0].children@.len() && #[trigger] n1[i0].children@[q] == i1;
        assert(i0 < n1[i0].children@[q]);
        assert(n1[i0].is_dir);
        let i0b = lemma_path_in_other(root, a, b, one_file_system, t1, t2, i0);
        let k1 = lemma_item_of(root, a, one_file_system, t1, i1);
        let k1b = lemma_item_in_other(a, b, k1);
        assert(path_view(n1[i1].path@.drop_last()) == path_view(n1[i0].path@));
        assert(n1[i1].path@ == item_path(a[k1]));
        assert(parent_view(b[k1b]) == path_view(n1[i1].path@.drop_last()));
        assert(has_parent_dir(n2, b[k1b]));
        assert(has_path_node(n2, b[k1b]));
        let j = choose|j: int|
            1 <= j < n2.len() && path_view((#[trigger] n2[j]).path@) == path_view(item_path(b[k1b]));
        lemma_same_item(root, a, b, one_file_system, t1, t2, i1, j);
        j
    }
}

proof fn lemma_sizes_total_remove(nodes: Seq<FileNode>, s: Seq<usize>, j: int)
    requires
        0 <= j < s.len(),
    ensures
        sizes_total(nodes, s) == sizes_total(nodes, s.remove(j)) + nodes[s[j] as int].size,
    decreases s.len(),
{
    if j == s.len() - 1 {
        assert(s.remove(j) =~= s.drop_last());
    } else {
        lemma_sizes_total_remove(nodes, s.drop_last(), j);
        assert(s.remove(j).drop_last() =~= s.drop_last().remove(j));
        assert(s.remove(j).last() == s.last());
    }
}

pub open spec fn same_path(n1: Seq<FileNode>, x: usize, n2: Seq<FileNode>, y: usize) -> bool {
    path_view(n1[x as int].path@) == path_view(n2[y as int].path@)
}

/// Node `x` of `n1` has a node of the same path and size among `s2` in `n2`.
pub open spec fn matched_in(n1: Seq<FileNode>, x: usize, n2: Seq<FileNode>, s2: Seq<usize>) -> bool {
    exists|q: int|
        0 <= q < s2.len() && same_path(n1, x, n2, #[trigger] s2[q]) && n1[x as int].size == n2[s2[q] as int].size
}

/// Node `y` of `n2` has a node of the same path among `s1` in `n1`.
pub open spec fn found_in(n1: Seq<FileNode>, s1: Seq<usize>, n2: Seq<FileNode>, y: usize) -> bool {
    exists|p: int| 0 <= p < s1.len() && same_path(n1, #[trigger] s1[p], n2, y)
}

pub open spec fn unique_paths(n: Seq<FileNode>, s: Seq<usize>) -> bool {
    forall|p1: int, p2: int|
        0 <= p1 < s.len() && 0 <= p2 < s.len() && p1 != p2 ==> path_view(n[(#[trigger] s[p1]) as int].path@)
            != path_view(n[(#[trigger] s[p2]) as int].path@)
}

/// Two lists of nodes that match one to one by path, with equal sizes, have
/// equal totals.
proof fn lemma_matched_totals(n1: Seq<FileNode>, n2: Seq<FileNode>, s1: Seq<usize>, s2: Seq<usize>)
    requires
        unique_paths(n1, s1),
        unique_paths(n2, s2),
        forall|p: int| 0 <= p < s1.len() ==> #[trigger] matched_in(n1, s1[p], n2, s2),
        forall|q: int| 0 <= q < s2.len() ==> #[trigger] found_in(n1, s1, n2, s2[q]),
    ensures
        sizes_total(n1, s1) == sizes_total(n2, s2),
    decreases s1.len(),
{
    if s1.len() == 0 {
        if s2.len() > 0 {
            assert(found_in(n1, s1, n2, s2[0]));
        }
    } else {
        let last = s1.len() - 1;
        let x = s1[last];
        assert(matched_in(n1, x, n2, s2));
        let j = choose|j: int|
            0 <= j < s2.len() && same_path(n1, x, n2, #[trigger] s2[j]) && n1[x as int].size == n2[s2[j] as int].size;
        let s1b = s1.drop_last();
        let s2b = s2.remove(j);
        assert forall|p1: int, p2: int|
            0 <= p1 < s1b.len() && 0 <= p2 < s1b.len() && p1 != p2 implies path_view(n1[(#[trigger] s1b[p1]) as int].path@)
            != path_view(n1[(#[trigger] s1b[p2]) as int].path@) by {
            assert(s1b[p1] == s1[p1] && s1b[p2] == s1[p2]);
        }
        assert forall|q1: int, q2: int|
            0 <= q1 < s2b.len() && 0 <= q2 < s2b.len() && q1 != q2 implies path_view(n2[(#[trigger] s2b[q1]) as int].path@)
            != path_view(n2[(#[trigger] s2b[q2]) as int].path@) by {
            let o1 = if q1 < j { q1 } else { q1 + 1 };
            let o2 = if q2 < j { q2 } else { q2 + 1 };
            assert(s2b[q1] == s2[o1] && s2b[q2] == s2[o2]);
        }
        assert forall|p: int| 0 <= p < s1b.len() implies #[trigger] matched_in(n1, s1b[p], n2, s2b) by {
            assert(s1b[p] == s1[p]);
            assert(matched_in(n1, s1[p], n2, s2));
            let q = choose|q: int|
                0 <= q < s2.len() && same_path(n1, s1[p], n2, #[trigger] s2[q]) && n1[s1[p] as int].size
                    == n2[s2[q] as int].size;
            if q == j {
                assert(path_view(n1[s1[p] as int].path@) == path_view(n1[x as int].path@));
                assert(false);
            }
            let qb = if q < j { q } else { q - 1 };
            assert(s2b[qb] == s2[q]);
        }
        assert forall|q: int| 0 <= q < s2b.len() implies #[trigger] found_in(n1, s1b, n2, s2b[q]) by {
            let o = if q < j { q } else { q + 1 };
            assert(s2b[q] == s2[o]);
            assert(found_in(n1, s1, n2, s2[o]));
            let p = choose|p: int| 0 <= p < s1.len() && same_path(n1, #[trigger] s1[p], n2, s2[o]);
            if p == last {
                assert(path_view(n2[s2[o] as int].path@) == path_view(n2[s2[j] as int].path@));
                assert(false);
            }
            assert(s1b[p] == s1[p]);
        }
        lemma_matched_totals(n1, n2, s1b, s2b);
        lemma_sizes_total_remove(n2, s2, j);
    }
}

/// Nodes of the same path in trees built from the same items in two orders
/// have the same size.
proof fn lemma_size_in_other(
    root: ScanRoot,
    a: Seq<WalkItem>,
    b: Seq<WalkItem>,
    one_file_system: bool,
    t1: Tree,
    t2: Tree,
    i1: int,
    i2: int,
)
    requires
        a.to_multiset() == b.to_multiset(),
        item_paths_distinct(root, a, one_file_system),
        item_paths_distinct(root, b, one_file_system),
        builds(root, a, one_file_system, t1),
        builds(root, b, one_file_system, t2),
        0 <= i1 < t1.nodes@.len(),
        0 <= i2 < t2.nodes@.len(),
        path_view(t1.nodes@[i1].path@) == path_view(t2.nodes@[i2].path@),
    ensures
        t1.nodes@[i1].size == t2.nodes@[i2].size,
        (i1 == 0) == (i2 == 0),
    decreases t1.nodes@.len() - i1,
{
    let n1 = t1.nodes@;
    let n2 = t2.nodes@;
    if i1 == 0 && i2 != 0 {
        lemma_not_root_path(root, b, one_file_system, t2, i2);
    }
    if i1 != 0 && i2 == 0 {
        lemma_not_root_path(root, a, one_file_system, t1, i1);
    }
    if i1 != 0 {
        lemma_same_item(root, a, b, one_file_system, t1, t2, i1, i2);
    }
    if n1[i1].is_dir {
        let ch1 = n1[i1].children@;
        let ch2 = n2[i2].children@;
        assert forall|p1: int, p2: int|
            0 <= p1 < ch1.len() && 0 <= p2 < ch1.len() && p1 != p2 implies path_view(n1[(#[trigger] ch1[p1]) as int].path@)
            != path_view(n1[(#[trigger] ch1[p2]) as int].path@) by {
            assert(ch1[p1] != ch1[p2]);
        }
        assert forall|q1: int, q2: int|
            0 <= q1 < ch2.len() && 0 <= q2 < ch2.len() && q1 != q2 implies path_view(n2[(#[trigger] ch2[q1]) as int].path@)
            != path_view(n2[(#[trigger] ch2[q2]) as int].path@) by {
            assert(ch2[q1] != ch2[q2]);
        }
        assert forall|p: int| 0 <= p < ch1.len() implies #[trigger] matched_in(n1, ch1[p], n2, ch2) by {
            let x = ch1[p] as int;
            assert(i1 < x < n1.len());
            let y = lemma_path_in_other(root, a, b, one_file_system, t1, t2, x);
            assert(is_filed(n2, y));
            let (z, q) = choose|z: int, q: int|
                0 <= z < n2.len() && 0 <= q < n2[z].children@.len() && #[trigger] n2[z].children@[q] == y;
            assert(path_view(n2[y].path@.drop_last()) == path_view(n2[z].path@));
            assert(path_view(n1[x].path@.drop_last()) == path_view(n1[i1].path@));
            assert(path_view(n2[y].path@.drop_last()) =~= path_view(n2[y].path@).drop_last());
            assert(path_view(n1[x].path@.drop_last()) =~= path_view(n1[x].path@).drop_last());
            assert(z == i2);
            lemma_size_in_other(root, a, b, one_file_system, t1, t2, x, y);
            assert(same_path(n1, ch1[p], n2, ch2[q]));
        }
        assert forall|q: int| 0 <= q < ch2.len() implies #[trigger] found_in(n1, ch1, n2, ch2[q]) by {
            let y = ch2[q] as int;
            assert(i2 < y < n2.len());
            let x = lemma_path_in_other(root, b, a, one_file_system, t2, t1, y);
            assert(is_filed(n1, x));
            let (z, p) = choose|z: int, p: int|
                0 <= z < n1.len() && 0 <= p < n1[z].children@.len() && #[trigger] n1[z].children@[p] == x;
            assert(path_view(n1[x].path@.drop_last()) == path_view(n1[z].path@));
            assert(path_view(n2[y].path@.drop_last()) == path_view(n2[i2].path@));
            assert(path_view(n2[y].path@.drop_last()) =~= path_view(n2[y].path@).drop_last());
            assert(path_view(n1[x].path@.drop_last()) =~= path_view(n1[x].path@).drop_last());
            assert(z == i1);
            assert(same_path(n1, ch1[p], n2, ch2[q]));
        }
        lemma_matched_totals(n1, n2, ch1, ch2);
    }
}

proof fn lemma_distinct_in_other(root: ScanRoot, a: Seq<WalkItem>, b: Seq<WalkItem>, one_file_system: bool)
    requires
        a.to_multiset() == b.to_multiset(),
        item_paths_distinct(root, a, one_file_system),
    ensures
        item_paths_distinct(root, b, one_file_system),
{
    broadcast use group_to_multiset_ensures, vstd::multiset::group_multiset_axioms;

    assert forall|k1: int, k2: int|
        0 <= k1 < b.len() && 0 <= k2 < b.len() && k1 != k2 && is_recorded(root, #[trigger] b[k1], one_file_system)
            && is_recorded(root, #[trigger] b[k2], one_file_system) implies path_view(item_path(b[k1]))
        != path_view(item_path(b[k2])) by {
        if path_view(item_path(b[k1])) == path_view(item_path(b[k2])) {
            let j1 = lemma_item_in_other(b, a, k1);
            if b[k1] != b[k2] {
                let j2 = lemma_item_in_other(b, a, k2);
                assert(a[j1] != a[j2]);
            } else {
                let v = b[k1];
                vstd::seq_lib::to_multiset_remove(b, k1);
                let k2b = if k2 < k1 { k2 } else { k2 - 1 };
                assert(b.remove(k1)[k2b] == v);
                assert(b.remove(k1).contains(v));
                assert(b.remove(k1).to_multiset().count(v) > 0);
                assert(a.to_multiset().count(v) >= 2);
                vstd::seq_lib::to_multiset_remove(a, j1);
                assert(a.remove(j1).to_multiset().count(v) > 0);
                assert(a.remove(j1).contains(v));
                let r = choose|r: int| 0 <= r < a.remove(j1).len() && a.remove(j1)[r] == v;
                let j2 = if r < j1 { r } else { r + 1 };
                assert(a[j2] == v);
                assert(j2 != j1);
            }
        }
    }
}

/// Some node of `t` has the path, size and error count of `n`.
pub open spec fn has_counterpart(t: Tree, n: FileNode) -> bool {
    exists|i: int|
        0 <= i < t.nodes@.len() && path_view((#[trigger] t.nodes@[i]).path@) == path_view(n.path@)
            && t.nodes@[i].size == n.size && t.nodes@[i].error_count == n.error_count
}

/// Building the tree from the same items yielded in another order gives the
/// same paths, each with the same size and the same error count, provided no
/// two recorded items share a path.
pub proof fn lemma_build_any_order(
    root: ScanRoot,
    a: Seq<WalkItem>,
    b: Seq<WalkItem>,
    one_file_system: bool,
    t1: Tree,
    t2: Tree,
)
    requires
        a.to_multiset() == b.to_multiset(),
        item_paths_distinct(root, a, one_file_system),
        builds(root, a, one_file_system, t1),
        builds(root, b, one_file_system, t2),
    ensures
        forall|i1: int| 0 <= i1 < t1.nodes@.len() ==> #[trigger] has_counterpart(t2, t1.nodes@[i1]),
{
    lemma_distinct_in_other(root, a, b, one_file_system);
    lemma_error_total_any_order(root, a, b, one_file_system);
    assert forall|i1: int| 0 <= i1 < t1.nodes@.len() implies #[trigger] has_counterpart(t2, t1.nodes@[i1]) by {
        let i2 = lemma_path_in_other(root, a, b, one_file_system, t1, t2, i1);
        lemma_size_in_other(root, a, b, one_file_system, t1, t2, i1, i2);
        if i1 != 0 {
            lemma_same_item(root, a, b, one_file_system, t1, t2, i1, i2);
        }
        assert(t2.nodes@[i2].error_count == t1.nodes@[i1].error_count);
    }
}

} // verus!
