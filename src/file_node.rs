use vstd::prelude::*;

verus! {

/// The components of a path as character sequences.
pub open spec fn path_view(p: Seq<String>) -> Seq<Seq<char>> {
    p.map_values(|c: String| c@)
}

/// One file or directory of the inventoried subtree.
///
/// `path` holds the components of the entry's path; `children` holds indices
/// into the arena of the [`Tree`] that owns the node.
#[derive(Debug, Clone)]
pub struct FileNode {
    pub name: String,
    pub path: Vec<String>,
    pub size: u64,
    pub is_dir: bool,
    pub children: Vec<usize>,
    pub error_count: usize,
    /// Nanoseconds since the Unix epoch, absent when it could not be read.
    pub modified_time: Option<i64>,
}

impl FileNode {
    pub open spec fn path_seq(&self) -> Seq<Seq<char>> {
        path_view(self.path@)
    }

    pub fn new(path: Vec<String>, name: String, size: u64, is_dir: bool, mtime: Option<i64>) -> (r:
        Self)
        ensures
            r.path == path,
            r.name == name,
            r.size == size,
            r.is_dir == is_dir,
            r.children@.len() == 0,
            r.error_count == 0,
            r.modified_time == mtime,
    {
        FileNode {
            name,
            path,
            size,
            is_dir,
            children: Vec::new(),
            error_count: 0,
            modified_time: mtime,
        }
    }

    pub fn child_count(&self) -> (r: usize)
        ensures
            r == self.children@.len(),
    {
        self.children.len()
    }
}

/// Sum of the sizes of the listed nodes.
pub open spec fn sizes_total(nodes: Seq<FileNode>, ids: Seq<usize>) -> int
    decreases ids.len(),
{
    if ids.len() == 0 {
        0
    } else {
        sizes_total(nodes, ids.drop_last()) + nodes[ids.last() as int].size as int
    }
}

pub proof fn lemma_sizes_total_nonneg(nodes: Seq<FileNode>, ids: Seq<usize>)
    ensures
        sizes_total(nodes, ids) >= 0,
    decreases ids.len(),
{
    if ids.len() > 0 {
        lemma_sizes_total_nonneg(nodes, ids.drop_last());
    }
}

/// A byte count clamped to what a `u64` holds.
pub open spec fn clamp_u64(x: int) -> u64 {
    if x > u64::MAX {
        u64::MAX
    } else {
        x as u64
    }
}

/// The whole inventoried subtree, held as an arena of nodes. The root is the
/// node at index 0; each directory owns its children, which stand at higher
/// indices than their parent, so the structure cannot hold a cycle.
#[derive(Debug, Clone)]
pub struct Tree {
    pub nodes: Vec<FileNode>,
}

/// Each child stands in the arena after its parent, and only directories have
/// children.
pub open spec fn arena_ok(nodes: Seq<FileNode>) -> bool {
    &&& forall|i: int, k: int|
        0 <= i < nodes.len() && 0 <= k < nodes[i].children@.len() ==> i
            < #[trigger] nodes[i].children@[k] < nodes.len()
    &&& forall|i: int|
        0 <= i < nodes.len() && !(#[trigger] nodes[i]).is_dir ==> nodes[i].children@.len() == 0
}

impl Tree {
    pub open spec fn wf(&self) -> bool {
        &&& self.nodes@.len() >= 1
        &&& self.nodes@[0].is_dir
        &&& arena_ok(self.nodes@)
    }

    /// Every directory's size is the total of its children's sizes, clamped to
    /// what a `u64` holds.
    pub open spec fn aggregated(&self) -> bool {
        forall|i: int|
            0 <= i < self.nodes@.len() && (#[trigger] self.nodes@[i]).is_dir ==> self.nodes@[i].size
                == clamp_u64(sizes_total(self.nodes@, self.nodes@[i].children@))
    }

    pub fn root(&self) -> (r: &FileNode)
        requires
            self.wf(),
        ensures
            *r == self.nodes@[0],
    {
        &self.nodes[0]
    }
}

/// The total size of the files at and beneath node `i`: its own size for a
/// file, the sum over its children for a directory.
pub open spec fn file_bytes(nodes: Seq<FileNode>, i: int) -> int
    decreases nodes.len() - i, 1int, 0int,
{
    if !(0 <= i < nodes.len()) {
        0
    } else if !nodes[i].is_dir {
        nodes[i].size as int
    } else {
        files_under(nodes, i, nodes[i].children@.len() as int)
    }
}

/// The total of [`file_bytes`] over the first `k` children of node `i`.
pub open spec fn files_under(nodes: Seq<FileNode>, i: int, k: int) -> int
    decreases nodes.len() - i, 0int, k,
{
    if k <= 0 || !(0 <= i < nodes.len()) || k > nodes[i].children@.len() {
        0
    } else {
        let c = nodes[i].children@[k - 1] as int;
        files_under(nodes, i, k - 1) + if i < c < nodes.len() {
            file_bytes(nodes, c)
        } else {
            0
        }
    }
}

/// No directory's total exceeds what a `u64` holds.
pub open spec fn fits_u64(t: Tree) -> bool {
    forall|i: int|
        0 <= i < t.nodes@.len() && (#[trigger] t.nodes@[i]).is_dir ==> sizes_total(
            t.nodes@,
            t.nodes@[i].children@,
        ) <= u64::MAX
}

/// In an aggregated tree whose totals fit in a `u64`, every node's size is
/// the total size of the files at and beneath it; so the root's size is the
/// total of all the files of the tree.
pub proof fn lemma_size_is_file_total(t: Tree, i: int)
    requires
        t.wf(),
        t.aggregated(),
        fits_u64(t),
        0 <= i < t.nodes@.len(),
    ensures
        t.nodes@[i].size == file_bytes(t.nodes@, i),
    decreases t.nodes@.len() - i, 1int, 0int,
{
    let nodes = t.nodes@;
    if nodes[i].is_dir {
        let cs = nodes[i].children@;
        lemma_sizes_total_nonneg(nodes, cs);
        assert(nodes[i].size == clamp_u64(sizes_total(nodes, cs)));
        lemma_files_under(t, i, cs.len() as int);
        assert(cs.subrange(0, cs.len() as int) =~= cs);
    }
}

proof fn lemma_files_under(t: Tree, i: int, k: int)
    requires
        t.wf(),
        t.aggregated(),
        fits_u64(t),
        0 <= i < t.nodes@.len(),
        0 <= k <= t.nodes@[i].children@.len(),
    ensures
        sizes_total(t.nodes@, t.nodes@[i].children@.subrange(0, k)) == files_under(t.nodes@, i, k),
    decreases t.nodes@.len() - i, 0int, k,
{
    let nodes = t.nodes@;
    let cs = nodes[i].children@;
    if k > 0 {
        lemma_files_under(t, i, k - 1);
        let c = cs[k - 1] as int;
        assert(i < c < nodes.len());
        lemma_size_is_file_total(t, c);
        assert(cs.subrange(0, k).drop_last() =~= cs.subrange(0, k - 1));
    } else {
        assert(cs.subrange(0, 0) =~= Seq::<usize>::empty());
    }
}

} // verus!
