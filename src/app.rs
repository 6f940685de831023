use vstd::prelude::*;
use vstd::relations::sorted_by;
use vstd::seq_lib::group_to_multiset_ensures;
use vstd::string::StringExecFns;
use crate::args::Args;
use crate::file_node::{arena_ok, clamp_u64, sizes_total, FileNode, Tree};
use crate::scanner::clone_path;
use crate::sort::{
    child_leq, lemma_child_leq_total, lemma_sorted_ids, lemma_sorted_ids_fixed, sort_children,
    sort_key, sorted_ids, SortMode,
};
use vstd::seq_lib::lemma_sorted_unique;

verus! {

/// How far one page moves the selection.
pub const PAGE_SIZE: usize = 10;

/// Two nodes alike in all but their children.
pub open spec fn same_but_children(a: FileNode, b: FileNode) -> bool {
    &&& a.name == b.name
    &&& a.path@ == b.path@
    &&& a.size == b.size
    &&& a.is_dir == b.is_dir
    &&& a.error_count == b.error_count
    &&& a.modified_time == b.modified_time
}

/// `new` is `old` with the children of node `cur` sorted by `mode` in the
/// given direction.
pub open spec fn resorted(
    old: Seq<FileNode>,
    new: Seq<FileNode>,
    cur: int,
    mode: SortMode,
    ascending: bool,
) -> bool {
    &&& new.len() == old.len()
    &&& forall|j: int| 0 <= j < old.len() && j != cur ==> #[trigger] new[j] == old[j]
    &&& same_but_children(new[cur], old[cur])
    &&& new[cur].children@ == sorted_ids(old, old[cur].children@, mode, ascending)
}

/// The selection on arriving at a listing: its first entry, if it has one.
pub open spec fn first_or_none(ids: Seq<usize>) -> Option<usize> {
    if ids.len() > 0 {
        Some(0)
    } else {
        None
    }
}

/// The text of the status line after a change of sort.
pub open spec fn sort_status(mode: SortMode, ascending: bool) -> Seq<char> {
    "Sort: "@ + mode.spec_name() + " "@ + if ascending {
        "asc"@
    } else {
        "desc"@
    }
}

/// The state of an interactive session: the tree, the directory on view, the
/// directories above it, the selected entry, and the active sort.
pub struct App {
    pub tree: Tree,
    pub current_node: usize,
    pub path_history: Vec<usize>,
    pub selection: Option<usize>,
    pub args: Args,
    pub status_message: Option<String>,
    pub show_help: bool,
    pub sort_mode: SortMode,
    pub sort_ascending: bool,
}

impl App {
    pub open spec fn nodes(self) -> Seq<FileNode> {
        self.tree.nodes@
    }

    /// The children of the directory on view, in the order shown.
    pub open spec fn children(self) -> Seq<usize> {
        self.tree.nodes@[self.current_node as int].children@
    }

    pub open spec fn selection_ok(self) -> bool {
        match self.selection {
            Some(i) => i < self.children().len(),
            None => self.children().len() == 0,
        }
    }

    /// Everything but the order of the listing on view.
    pub open spec fn inv_unsorted(self) -> bool {
        &&& self.tree.wf()
        &&& self.current_node < self.nodes().len()
        &&& self.nodes()[self.current_node as int].is_dir
        &&& forall|h: int|
            0 <= h < self.path_history@.len() ==> #[trigger] self.path_history@[h] < self.nodes().len()
                && self.nodes()[self.path_history@[h] as int].is_dir
        &&& self.selection_ok()
    }

    /// The session is consistent, and the listing on view is in the order of
    /// the active sort.
    pub open spec fn wf(self) -> bool {
        &&& self.inv_unsorted()
        &&& sorted_by(self.children(), child_leq(self.nodes(), self.sort_mode, self.sort_ascending))
    }

    /// `b` is `a` with, at most, another tree.
    pub open spec fn same_but_tree(a: App, b: App) -> bool {
        &&& b.current_node == a.current_node
        &&& b.path_history@ == a.path_history@
        &&& b.selection == a.selection
        &&& b.args == a.args
        &&& b.status_message == a.status_message
        &&& b.show_help == a.show_help
        &&& b.sort_mode == a.sort_mode
        &&& b.sort_ascending == a.sort_ascending
    }

    /// `b` is `a` with, at most, another selection.
    pub open spec fn same_but_selection(a: App, b: App) -> bool {
        &&& b.tree == a.tree
        &&& b.current_node == a.current_node
        &&& b.path_history@ == a.path_history@
        &&& b.args == a.args
        &&& b.status_message == a.status_message
        &&& b.show_help == a.show_help
        &&& b.sort_mode == a.sort_mode
        &&& b.sort_ascending == a.sort_ascending
    }
}

/// Arenas that give each listed id the same key order the ids alike.
pub proof fn lemma_sorted_same_keys(
    a: Seq<FileNode>,
    b: Seq<FileNode>,
    ids: Seq<usize>,
    mode: SortMode,
    ascending: bool,
)
    requires
        sorted_by(ids, child_leq(a, mode, ascending)),
        forall|k: int|
            0 <= k < ids.len() ==> sort_key(a[#[trigger] ids[k] as int], mode) == sort_key(
                b[ids[k] as int],
                mode,
            ),
    ensures
        sorted_by(ids, child_leq(b, mode, ascending)),
{
    assert forall|x: int, y: int| 0 <= x < y < ids.len() implies #[trigger] child_leq(b, mode, ascending)(
        ids[x],
        ids[y],
    ) by {
        assert(child_leq(a, mode, ascending)(ids[x], ids[y]));
        assert(sort_key(a[ids[x] as int], mode) == sort_key(b[ids[x] as int], mode));
        assert(sort_key(a[ids[y] as int], mode) == sort_key(b[ids[y] as int], mode));
    }
}

impl App {
    /// Sorts the listing on view by the active sort.
    pub fn sort_current_view(&mut self)
        requires
            old(self).inv_unsorted(),
        ensures
            final(self).wf(),
            Self::same_but_tree(*old(self), *final(self)),
            resorted(
                old(self).nodes(),
                final(self).nodes(),
                old(self).current_node as int,
                old(self).sort_mode,
                old(self).sort_ascending,
            ),
    {
        broadcast use group_to_multiset_ensures;

        let cur = self.current_node;
        let ghost old_nodes = self.tree.nodes@;
        let ghost c0 = old_nodes[cur as int].children@;
        proof {
            assert forall|k: int| 0 <= k < c0.len() implies #[trigger] c0[k] < old_nodes.len() by {
                assert(cur < c0[k]);
            }
        }
        let ids = sort_children(&self.tree.nodes, &self.tree.nodes[cur].children, self.sort_mode, self.sort_ascending);
        self.tree.nodes[cur].children = ids;
        proof {
            let mode = self.sort_mode;
            let asc = self.sort_ascending;
            let nodes = self.tree.nodes@;
            let r = nodes[cur as int].children@;
            lemma_sorted_ids(old_nodes, c0, mode, asc);
            assert(r.len() == r.to_multiset().len());
            assert(c0.len() == c0.to_multiset().len());
            assert forall|k: int| 0 <= k < r.len() implies cur < #[trigger] r[k] && r[k] < nodes.len() by {
                assert(r.to_multiset().count(r[k]) > 0);
                assert(c0.contains(r[k]));
            }
            assert forall|i: int, k: int|
                0 <= i < nodes.len() && 0 <= k < nodes[i].children@.len() implies i
                    < #[trigger] nodes[i].children@[k] < nodes.len() by {
                if i != cur {
                    assert(nodes[i] == old_nodes[i]);
                }
            }
            assert forall|i: int| 0 <= i < nodes.len() && !(#[trigger] nodes[i]).is_dir implies nodes[i].children@.len() == 0 by {
                if i != cur {
                    assert(nodes[i] == old_nodes[i]);
                }
            }
            assert forall|k: int| 0 <= k < r.len() implies sort_key(old_nodes[#[trigger] r[k] as int], mode)
                == sort_key(nodes[r[k] as int], mode) by {
                assert(nodes[r[k] as int] == old_nodes[r[k] as int]);
            }
            lemma_sorted_same_keys(old_nodes, nodes, r, mode, asc);
            assert forall|h: int| 0 <= h < self.path_history@.len() implies #[trigger] self.path_history@[h] < nodes.len()
                && nodes[self.path_history@[h] as int].is_dir by {
                let x = self.path_history@[h] as int;
                if x != cur {
                    assert(nodes[x] == old_nodes[x]);
                }
            }
        }
    }
}

/// Selection after moving down one entry, wrapping to the top.
pub open spec fn next_selection(sel: Option<usize>, len: nat) -> Option<usize> {
    if len == 0 {
        sel
    } else {
        match sel {
            Some(i) => Some(if i + 1 >= len { 0 } else { (i + 1) as usize }),
            None => Some(0),
        }
    }
}

/// Selection after moving up one entry, wrapping to the bottom.
pub open spec fn previous_selection(sel: Option<usize>, len: nat) -> Option<usize> {
    if len == 0 {
        sel
    } else {
        match sel {
            Some(i) => Some(if i == 0 { (len - 1) as usize } else { (i - 1) as usize }),
            None => Some(0),
        }
    }
}

/// Selection after moving down one page, stopping at the last entry.
pub open spec fn page_down_selection(sel: Option<usize>, len: nat) -> Option<usize> {
    if len == 0 {
        sel
    } else {
        match sel {
            Some(i) => Some(
                if i + PAGE_SIZE <= len - 1 {
                    (i + PAGE_SIZE) as usize
                } else {
                    (len - 1) as usize
                },
            ),
            None => Some(0),
        }
    }
}

/// Selection after moving up one page, stopping at the first entry.
pub open spec fn page_up_selection(sel: Option<usize>, len: nat) -> Option<usize> {
    if len == 0 {
        sel
    } else {
        match sel {
            Some(i) => Some(
                if i >= PAGE_SIZE {
                    (i - PAGE_SIZE) as usize
                } else {
                    0
                },
            ),
            None => Some(0),
        }
    }
}

impl App {
    /// Starts a session on the root of `root`, sorted by size, largest first.
    pub fn new(root: Tree, args: Args) -> (app: App)
        requires
            root.wf(),
        ensures
            app.wf(),
            app.current_node == 0,
            app.path_history@.len() == 0,
            app.sort_mode == SortMode::Size,
            !app.sort_ascending,
            app.args == args,
            app.status_message is None,
            !app.show_help,
            resorted(root.nodes@, app.nodes(), 0, SortMode::Size, false),
            app.selection == first_or_none(app.children()),
    {
        let selection = if root.nodes[0].children.len() > 0 {
            Some(0)
        } else {
            None
        };
        let mut app = App {
            tree: root,
            current_node: 0,
            path_history: Vec::new(),
            selection,
            args,
            status_message: None,
            show_help: false,
            sort_mode: SortMode::Size,
            sort_ascending: false,
        };
        app.sort_current_view();
        app
    }

    /// The sort that a request for `mode` leads to: the other direction if
    /// `mode` is already active, else `mode` largest first; with the listing
    /// sorted accordingly and a status line that names it.
    pub open spec fn toggled(a: App, b: App, mode: SortMode) -> bool {
        &&& b.sort_mode == mode
        &&& b.sort_ascending == if a.sort_mode == mode {
            !a.sort_ascending
        } else {
            false
        }
        &&& b.current_node == a.current_node
        &&& b.path_history@ == a.path_history@
        &&& b.selection == a.selection
        &&& b.args == a.args
        &&& b.show_help == a.show_help
        &&& resorted(a.nodes(), b.nodes(), a.current_node as int, mode, b.sort_ascending)
        &&& b.status_message matches Some(m) && m@ == sort_status(mode, b.sort_ascending)
    }

    fn toggle_sort(&mut self, mode: SortMode)
        requires
            old(self).wf(),
        ensures
            final(self).wf(),
            Self::toggled(*old(self), *final(self), mode),
    {
        if self.sort_mode == mode {
            self.sort_ascending = !self.sort_ascending;
        } else {
            self.sort_mode = mode;
            self.sort_ascending = false;
        }
        self.sort_current_view();
        let mut msg = String::new();
        msg.append("Sort: ");
        msg.append(self.sort_mode.name());
        msg.append(" ");
        msg.append(
            if self.sort_ascending {
                "asc"
            } else {
                "desc"
            },
        );
        self.status_message = Some(msg);
    }

    pub fn toggle_sort_by_size(&mut self)
        requires
            old(self).wf(),
        ensures
            final(self).wf(),
            Self::toggled(*old(self), *final(self), SortMode::Size),
    {
        self.toggle_sort(SortMode::Size);
    }

    pub fn toggle_sort_by_mtime(&mut self)
        requires
            old(self).wf(),
        ensures
            final(self).wf(),
            Self::toggled(*old(self), *final(self), SortMode::ModifiedTime),
    {
        self.toggle_sort(SortMode::ModifiedTime);
    }

    pub fn toggle_sort_by_count(&mut self)
        requires
            old(self).wf(),
        ensures
            final(self).wf(),
            Self::toggled(*old(self), *final(self), SortMode::ItemCount),
    {
        self.toggle_sort(SortMode::ItemCount);
    }

    /// The ids of the children of the directory on view, in the order shown.
    pub fn current_children(&self) -> (r: Vec<usize>)
        requires
            self.wf(),
        ensures
            r@ == self.children(),
    {
        let cs = &self.tree.nodes[self.current_node].children;
        let mut r: Vec<usize> = Vec::new();
        let mut i: usize = 0;
        while i < cs.len()
            invariant
                i <= cs@.len(),
                r@ =~= cs@.subrange(0, i as int),
            decreases cs@.len() - i,
        {
            r.push(cs[i]);
            i = i + 1;
        }
        proof {
            assert(cs@.subrange(0, i as int) =~= cs@);
        }
        r
    }

    /// The path of the directory on view.
    pub fn current_path(&self) -> (r: Vec<String>)
        requires
            self.wf(),
        ensures
            r@ == self.nodes()[self.current_node as int].path@,
    {
        clone_path(&self.tree.nodes[self.current_node].path)
    }

    /// The total size of the entries listed, clamped to what a `u64` holds.
    pub fn current_total_size(&self) -> (r: u64)
        requires
            self.wf(),
        ensures
            r == clamp_u64(sizes_total(self.nodes(), self.children())),
    {
        let nodes = &self.tree.nodes;
        let cs = &nodes[self.current_node].children;
        let mut total: u64 = 0;
        let mut q: usize = 0;
        proof {
            assert(cs@.subrange(0, 0) =~= Seq::<usize>::empty());
        }
        while q < cs.len()
            invariant
                self.wf(),
                *nodes == self.tree.nodes,
                *cs == nodes@[self.current_node as int].children,
                q <= cs@.len(),
                total == clamp_u64(sizes_total(nodes@, cs@.subrange(0, q as int))),
            decreases cs@.len() - q,
        {
            let c = cs[q];
            proof {
                assert(self.current_node < c);
                assert(cs@.subrange(0, q + 1).drop_last() =~= cs@.subrange(0, q as int));
                crate::file_node::lemma_sizes_total_nonneg(nodes@, cs@.subrange(0, q as int));
            }
            total = total.saturating_add(nodes[c].size);
            q = q + 1;
        }
        proof {
            assert(cs@.subrange(0, q as int) =~= cs@);
        }
        total
    }

    pub fn next(&mut self)
        requires
            old(self).wf(),
        ensures
            final(self).wf(),
            Self::same_but_selection(*old(self), *final(self)),
            final(self).selection == next_selection(old(self).selection, old(self).children().len()),
    {
        let len = self.tree.nodes[self.current_node].children.len();
        if len > 0 {
            let i = match self.selection {
                Some(i) => if i >= len - 1 {
                    0
                } else {
                    i + 1
                },
                None => 0,
            };
            self.selection = Some(i);
        }
    }

    pub fn previous(&mut self)
        requires
            old(self).wf(),
        ensures
            final(self).wf(),
            Self::same_but_selection(*old(self), *final(self)),
            final(self).selection == previous_selection(old(self).selection, old(self).children().len()),
    {
        let len = self.tree.nodes[self.current_node].children.len();
        if len > 0 {
            let i = match self.selection {
                Some(i) => if i == 0 {
                    len - 1
                } else {
                    i - 1
                },
                None => 0,
            };
            self.selection = Some(i);
        }
    }

    pub fn page_down(&mut self)
        requires
            old(self).wf(),
        ensures
            final(self).wf(),
            Self::same_but_selection(*old(self), *final(self)),
            final(self).selection == page_down_selection(old(self).selection, old(self).children().len()),
            final(self).selection matches Some(i) ==> i < final(self).children().len(),
            old(self).children().len() == 0 ==> final(self).selection is None,
    {
        let len = self.tree.nodes[self.current_node].children.len();
        if len > 0 {
            let i = match self.selection {
                Some(i) => if i <= len - 1 && len - 1 - i >= PAGE_SIZE {
                    i + PAGE_SIZE
                } else {
                    len - 1
                },
                None => 0,
            };
            self.selection = Some(i);
        }
    }

    pub fn page_up(&mut self)
        requires
            old(self).wf(),
        ensures
            final(self).wf(),
            Self::same_but_selection(*old(self), *final(self)),
            final(self).selection == page_up_selection(old(self).selection, old(self).children().len()),
            final(self).selection matches Some(i) ==> i < final(self).children().len(),
            old(self).children().len() == 0 ==> final(self).selection is None,
    {
        let len = self.tree.nodes[self.current_node].children.len();
        if len > 0 {
            let i = match self.selection {
                Some(i) => i.saturating_sub(PAGE_SIZE),
                None => 0,
            };
            self.selection = Some(i);
        }
    }

    pub fn go_to_first(&mut self)
        requires
            old(self).wf(),
        ensures
            final(self).wf(),
            Self::same_but_selection(*old(self), *final(self)),
            final(self).selection == if old(self).children().len() > 0 {
                Some(0usize)
            } else {
                old(self).selection
            },
    {
        let len = self.tree.nodes[self.current_node].children.len();
        if len > 0 {
            self.selection = Some(0);
        }
    }

    pub fn go_to_last(&mut self)
        requires
            old(self).wf(),
        ensures
            final(self).wf(),
            Self::same_but_selection(*old(self), *final(self)),
            final(self).selection == if old(self).children().len() > 0 {
                Some((old(self).children().len() - 1) as usize)
            } else {
                old(self).selection
            },
    {
        let len = self.tree.nodes[self.current_node].children.len();
        if len > 0 {
            self.selection = Some(len - 1);
        }
    }
}

/// The ids moved up by `off`, as when a subtree joins the end of an arena.
pub open spec fn shift(ids: Seq<usize>, off: int) -> Seq<usize> {
    ids.map_values(|c: usize| (c + off) as usize)
}

/// `dst` is `src` with its children moved up by `off`.
pub open spec fn shifted(src: FileNode, dst: FileNode, off: int) -> bool {
    &&& same_but_children(src, dst)
    &&& dst.children@ == shift(src.children@, off)
}

fn shift_ids(ids: &Vec<usize>, off: usize) -> (r: Vec<usize>)
    requires
        forall|k: int| 0 <= k < ids@.len() ==> #[trigger] ids@[k] + off <= usize::MAX,
    ensures
        r@ == shift(ids@, off as int),
{
    let mut r: Vec<usize> = Vec::new();
    let mut i: usize = 0;
    while i < ids.len()
        invariant
            i <= ids@.len(),
            forall|k: int| 0 <= k < ids@.len() ==> #[trigger] ids@[k] + off <= usize::MAX,
            r@ =~= shift(ids@.subrange(0, i as int), off as int),
        decreases ids@.len() - i,
    {
        r.push(ids[i] + off);
        i = i + 1;
        proof {
            assert(r@ =~= shift(ids@.subrange(0, i as int), off as int));
        }
    }
    proof {
        assert(ids@.subrange(0, i as int) =~= ids@);
    }
    r
}

fn shifted_copy(n: &FileNode, off: usize) -> (r: FileNode)
    requires
        forall|k: int| 0 <= k < n.children@.len() ==> #[trigger] n.children@[k] + off <= usize::MAX,
    ensures
        shifted(*n, r, off as int),
{
    FileNode {
        name: n.name.clone(),
        path: clone_path(&n.path),
        size: n.size,
        is_dir: n.is_dir,
        children: shift_ids(&n.children, off),
        error_count: n.error_count,
        modified_time: n.modified_time,
    }
}

impl App {
    /// Entering the selected entry, if it is a directory: the directory on
    /// view goes onto the history, the entry becomes the directory on view,
    /// sorted by the active sort, with its first entry selected.
    pub open spec fn entered(a: App, b: App) -> bool {
        if a.selection is Some && a.selection->0 < a.children().len() && a.nodes()[a.children()[a.selection->0 as int] as int].is_dir {
            let c = a.children()[a.selection->0 as int];
            &&& b.current_node == c
            &&& b.path_history@ == a.path_history@.push(a.current_node)
            &&& resorted(a.nodes(), b.nodes(), c as int, a.sort_mode, a.sort_ascending)
            &&& b.selection == first_or_none(b.children())
            &&& b.args == a.args
            &&& b.status_message == a.status_message
            &&& b.show_help == a.show_help
            &&& b.sort_mode == a.sort_mode
            &&& b.sort_ascending == a.sort_ascending
        } else {
            Self::same_but_tree(a, b) && b.tree == a.tree
        }
    }

    /// Leaving the directory on view for the last one on the history, sorted
    /// by the active sort, with its first entry selected; nothing at the root.
    pub open spec fn went_up(a: App, b: App) -> bool {
        if a.path_history@.len() > 0 {
            let p = a.path_history@.last();
            &&& b.current_node == p
            &&& b.path_history@ == a.path_history@.drop_last()
            &&& resorted(a.nodes(), b.nodes(), p as int, a.sort_mode, a.sort_ascending)
            &&& b.selection == first_or_none(b.children())
            &&& b.args == a.args
            &&& b.status_message == a.status_message
            &&& b.show_help == a.show_help
            &&& b.sort_mode == a.sort_mode
            &&& b.sort_ascending == a.sort_ascending
        } else {
            Self::same_but_tree(a, b) && b.tree == a.tree
        }
    }

    /// Replacing the children, size and error count of the directory on view
    /// with those of `fresh`, a new scan of it. The other nodes keep their
    /// values, the sizes of the directories above included; the nodes of
    /// `fresh` join the end of the arena.
    pub open spec fn refreshed(a: App, fresh: Tree, b: App) -> bool {
        let off = a.nodes().len() - 1;
        let cur = a.current_node as int;
        &&& b.nodes().len() == a.nodes().len() + fresh.nodes@.len() - 1
        &&& forall|j: int| 0 <= j < a.nodes().len() && j != cur ==> #[trigger] b.nodes()[j] == a.nodes()[j]
        &&& forall|j: int| 1 <= j < fresh.nodes@.len() ==> shifted(fresh.nodes@[j], #[trigger] b.nodes()[j + off], off)
        &&& b.nodes()[cur].name == a.nodes()[cur].name
        &&& b.nodes()[cur].path@ == a.nodes()[cur].path@
        &&& b.nodes()[cur].is_dir == a.nodes()[cur].is_dir
        &&& b.nodes()[cur].modified_time == a.nodes()[cur].modified_time
        &&& b.nodes()[cur].size == fresh.nodes@[0].size
        &&& b.nodes()[cur].error_count == fresh.nodes@[0].error_count
        &&& b.children().to_multiset() == shift(fresh.nodes@[0].children@, off).to_multiset()
        &&& b.current_node == a.current_node
        &&& b.path_history@ == a.path_history@
        &&& b.selection == first_or_none(b.children())
        &&& b.args == a.args
        &&& b.show_help == a.show_help
        &&& b.sort_mode == a.sort_mode
        &&& b.sort_ascending == a.sort_ascending
        &&& b.status_message matches Some(m) && m@ == "Refresh complete!"@
    }

    /// Enters the selected directory.
    pub fn enter_dir(&mut self)
        requires
            old(self).wf(),
        ensures
            final(self).wf(),
            Self::entered(*old(self), *final(self)),
    {
        broadcast use group_to_multiset_ensures;

        let cur = self.current_node;
        if let Some(i) = self.selection {
            if i < self.tree.nodes[cur].children.len() {
                let c = self.tree.nodes[cur].children[i];
                if self.tree.nodes[c].is_dir {
                    let ghost a = *self;
                    self.path_history.push(cur);
                    self.current_node = c;
                    self.selection = if self.tree.nodes[c].children.len() > 0 {
                        Some(0)
                    } else {
                        None
                    };
                    proof {
                        assert(self.path_history@.last() == cur);
                    }
                    self.sort_current_view();
                    proof {
                        lemma_sorted_ids(a.nodes(), a.nodes()[c as int].children@, a.sort_mode, a.sort_ascending);
                        assert(self.children().len() == self.children().to_multiset().len());
                        assert(a.nodes()[c as int].children@.len() == a.nodes()[c as int].children@.to_multiset().len());
                    }
                }
            }
        }
    }

    /// Goes up to the directory above the one on view.
    pub fn go_up(&mut self)
        requires
            old(self).wf(),
        ensures
            final(self).wf(),
            Self::went_up(*old(self), *final(self)),
    {
        broadcast use group_to_multiset_ensures;

        if let Some(p) = self.path_history.pop() {
            let ghost a = self.tree.nodes@;
            proof {
                assert(old(self).path_history@.contains(p));
            }
            self.current_node = p;
            self.selection = if self.tree.nodes[p].children.len() > 0 {
                Some(0)
            } else {
                None
            };
            proof {
                assert forall|h: int| 0 <= h < self.path_history@.len() implies #[trigger] self.path_history@[h]
                    < self.nodes().len() && self.nodes()[self.path_history@[h] as int].is_dir by {
                    assert(self.path_history@[h] == old(self).path_history@[h]);
                }
            }
            self.sort_current_view();
            proof {
                lemma_sorted_ids(a, a[p as int].children@, self.sort_mode, self.sort_ascending);
                assert(self.children().len() == self.children().to_multiset().len());
                assert(a[p as int].children@.len() == a[p as int].children@.to_multiset().len());
            }
        }
    }

    /// Puts in place of the listing on view what a new scan of its directory
    /// found.
    pub fn refresh(&mut self, fresh: Tree)
        requires
            old(self).wf(),
            fresh.wf(),
            old(self).nodes().len() + fresh.nodes@.len() <= usize::MAX,
        ensures
            final(self).wf(),
            Self::refreshed(*old(self), fresh, *final(self)),
    {
        broadcast use group_to_multiset_ensures;

        let ghost a = *self;
        let n = self.tree.nodes.len();
        let off = n - 1;
        let m = fresh.nodes.len();
        let mut j: usize = 1;
        while j < m
            invariant
                1 <= j <= m,
                m == fresh.nodes@.len(),
                fresh.wf(),
                n == a.nodes().len(),
                off == n - 1,
                n + m <= usize::MAX,
                a.wf(),
                Self::same_but_tree(a, *self),
                self.tree.nodes@.len() == n + j - 1,
                forall|q: int| 0 <= q < n ==> #[trigger] self.tree.nodes@[q] == a.nodes()[q],
                forall|q: int| 1 <= q < j ==> shifted(fresh.nodes@[q], #[trigger] self.tree.nodes@[q + off], off as int),
            decreases m - j,
        {
            proof {
                assert forall|k: int| 0 <= k < fresh.nodes@[j as int].children@.len() implies #[trigger] fresh.nodes@[j as int].children@[k]
                    + off <= usize::MAX by {
                    assert(fresh.nodes@[j as int].children@[k] < m);
                }
            }
            let node = shifted_copy(&fresh.nodes[j], off);
            self.tree.nodes.push(node);
            j = j + 1;
        }
        proof {
            assert forall|k: int| 0 <= k < fresh.nodes@[0].children@.len() implies #[trigger] fresh.nodes@[0].children@[k]
                + off <= usize::MAX by {
                assert(fresh.nodes@[0].children@[k] < m);
            }
        }
        let kids = shift_ids(&fresh.nodes[0].children, off);
        let cur = self.current_node;
        let has_kids = kids.len() > 0;
        self.tree.nodes[cur].children = kids;
        self.tree.nodes[cur].size = fresh.nodes[0].size;
        self.tree.nodes[cur].error_count = fresh.nodes[0].error_count;
        self.selection = if has_kids {
            Some(0)
        } else {
            None
        };
        let ghost mid = self.tree.nodes@;
        proof {
            let nodes = self.tree.nodes@;
            assert forall|i: int, k: int|
                0 <= i < nodes.len() && 0 <= k < nodes[i].children@.len() implies i
                    < #[trigger] nodes[i].children@[k] < nodes.len() by {
                if i == cur {
                    assert(0 < fresh.nodes@[0].children@[k]);
                } else if i < n {
                    assert(nodes[i] == a.nodes()[i]);
                } else {
                    let q = i - off;
                    assert(shifted(fresh.nodes@[q], nodes[q + off], off as int));
                    assert(q < fresh.nodes@[q].children@[k] < m);
                }
            }
            assert forall|i: int| 0 <= i < nodes.len() && !(#[trigger] nodes[i]).is_dir implies nodes[i].children@.len() == 0 by {
                if i != cur && i < n {
                    assert(nodes[i] == a.nodes()[i]);
                } else if i >= n {
                    let q = i - off;
                    assert(shifted(fresh.nodes@[q], nodes[q + off], off as int));
                    assert(!fresh.nodes@[q].is_dir);
                }
            }
            assert forall|h: int| 0 <= h < self.path_history@.len() implies #[trigger] self.path_history@[h]
                < self.nodes().len() && self.nodes()[self.path_history@[h] as int].is_dir by {
                let x = self.path_history@[h] as int;
                if x != cur {
                    assert(nodes[x] == a.nodes()[x]);
                }
            }
        }
        self.sort_current_view();
        let mut msg = String::new();
        msg.append("Refresh complete!");
        self.status_message = Some(msg);
        proof {
            let b = *self;
            lemma_sorted_ids(mid, mid[cur as int].children@, b.sort_mode, b.sort_ascending);
            assert(b.children().len() == b.children().to_multiset().len());
            assert(mid[cur as int].children@.len() == mid[cur as int].children@.to_multiset().len());
            assert forall|q: int| 1 <= q < fresh.nodes@.len() implies shifted(fresh.nodes@[q], #[trigger] b.nodes()[q + off], off as int) by {
                assert(b.nodes()[q + off] == mid[q + off]);
            }
            assert forall|q: int| 0 <= q < a.nodes().len() && q != cur implies #[trigger] b.nodes()[q] == a.nodes()[q] by {
                assert(b.nodes()[q] == mid[q]);
            }
        }
    }
}

/// Asking twice in a row for the sort that is active gives back the listing
/// in the order it had, with the same sort and direction.
pub proof fn lemma_toggle_twice_restores(a0: App, a1: App, a2: App, mode: SortMode)
    requires
        a0.wf(),
        a2.wf(),
        a0.sort_mode == mode,
        App::toggled(a0, a1, mode),
        App::toggled(a1, a2, mode),
    ensures
        a2.children() == a0.children(),
        a2.sort_mode == a0.sort_mode,
        a2.sort_ascending == a0.sort_ascending,
{
    broadcast use group_to_multiset_ensures;

    let cur = a0.current_node as int;
    let c0 = a0.children();
    let asc = a0.sort_ascending;
    lemma_sorted_ids(a0.nodes(), c0, mode, !asc);
    lemma_sorted_ids(a1.nodes(), a1.children(), mode, asc);
    assert forall|k: int| 0 <= k < c0.len() implies sort_key(a0.nodes()[#[trigger] c0[k] as int], mode)
        == sort_key(a2.nodes()[c0[k] as int], mode) by {
        assert(cur < c0[k]);
        assert(a1.nodes()[c0[k] as int] == a0.nodes()[c0[k] as int]);
    }
    lemma_sorted_same_keys(a0.nodes(), a2.nodes(), c0, mode, asc);
    lemma_child_leq_total(a2.nodes(), mode, asc);
    lemma_sorted_unique(a2.children(), c0, child_leq(a2.nodes(), mode, asc));
}

/// Entering a directory and going up again comes back to the directory one
/// started from, with the same history and listing, and with the first
/// entry selected (or none, if the listing is empty): the selection held
/// before is not brought back.
pub proof fn lemma_enter_then_up(a0: App, a1: App, a2: App)
    requires
        a0.wf(),
        a0.selection is Some,
        a0.nodes()[a0.children()[a0.selection->0 as int] as int].is_dir,
        App::entered(a0, a1),
        App::went_up(a1, a2),
    ensures
        a2.current_node == a0.current_node,
        a2.path_history@ == a0.path_history@,
        a2.children() == a0.children(),
        a2.selection == first_or_none(a0.children()),
{
    broadcast use group_to_multiset_ensures;

    let cur = a0.current_node as int;
    let c0 = a0.children();
    let c = c0[a0.selection->0 as int] as int;
    let mode = a0.sort_mode;
    let asc = a0.sort_ascending;
    assert(cur < c);
    assert(a1.path_history@.last() == a0.current_node);
    assert(a1.path_history@.drop_last() =~= a0.path_history@);
    assert(a1.nodes()[cur] == a0.nodes()[cur]);
    lemma_sorted_ids(a0.nodes(), a0.nodes()[c].children@, mode, asc);
    assert(a1.nodes()[c].children@.len() == a1.nodes()[c].children@.to_multiset().len());
    assert(a0.nodes()[c].children@.len() == a0.nodes()[c].children@.to_multiset().len());
    assert forall|k: int| 0 <= k < c0.len() implies sort_key(a0.nodes()[#[trigger] c0[k] as int], mode)
        == sort_key(a1.nodes()[c0[k] as int], mode) by {
        assert(cur < c0[k]);
        if c0[k] as int != c {
            assert(a1.nodes()[c0[k] as int] == a0.nodes()[c0[k] as int]);
        }
    }
    lemma_sorted_same_keys(a0.nodes(), a1.nodes(), c0, mode, asc);
    lemma_sorted_ids_fixed(a1.nodes(), c0, mode, asc);
}

} // verus!
