//! Arena representation of rooted, labelled trees.

use vstd::prelude::*;
use crate::subtree::{
    lemma_dfs_len, lemma_dfs_props, lemma_dfs_unfold, lemma_flat_append, lemma_flat_len,
    lemma_root_covers, lemma_child_after, lemma_size_unfold, lemma_sum_sizes_prefix, sum_sizes,
};

verus! {

/// One node of an arena tree.
pub struct Node {
    pub label: u32,
    pub children: Vec<usize>,
    pub parent: Option<usize>,
}

/// A rooted tree whose nodes live in one vector and refer to each other by index.
pub struct Tree {
    pub nodes: Vec<Node>,
    pub root: usize,
}

/// Mathematical model of a node.
pub struct NodeView {
    pub label: u32,
    pub children: Seq<usize>,
    pub parent: Option<usize>,
}

/// Mathematical model of a tree.
pub struct TreeView {
    pub nodes: Seq<NodeView>,
    pub root: usize,
}

impl View for Node {
    type V = NodeView;

    open spec fn view(&self) -> NodeView {
        NodeView { label: self.label, children: self.children@, parent: self.parent }
    }
}

impl View for Tree {
    type V = TreeView;

    open spec fn view(&self) -> TreeView {
        TreeView { nodes: self.nodes@.map_values(|n: Node| n@), root: self.root }
    }
}

impl TreeView {
    pub open spec fn len(self) -> nat {
        self.nodes.len()
    }

    pub open spec fn kids(self, i: int) -> Seq<usize> {
        self.nodes[i].children
    }

    pub open spec fn label(self, i: int) -> u32 {
        self.nodes[i].label
    }

    /// The arena encodes a tree rooted at index 0: every child has a larger index
    /// than its parent and points back to it, and every non-root node is listed
    /// exactly once among the children of its parent.
    pub open spec fn wf(self) -> bool {
        &&& 0 < self.nodes.len() <= usize::MAX
        &&& self.root == 0
        &&& self.nodes[0].parent is None
        &&& forall|i: int, j: int|
            0 <= i < self.len() && 0 <= j < self.kids(i).len() ==> i < #[trigger] self.kids(i)[j]
                < self.len() && self.nodes[self.kids(i)[j] as int].parent == Some(i as usize)
        &&& forall|i: int| 0 <= i < self.len() ==> #[trigger] self.kids(i).no_duplicates()
        &&& forall|i: int|
            0 < i < self.len() ==> (#[trigger] self.nodes[i].parent matches Some(p) && p < i
                && self.kids(p as int).contains(i as usize))
    }

    /// Pre-order listing of the subtree at `i` in the order of a stack-based walk:
    /// the node itself, then the subtrees of its children from the last child to the first.
    pub open spec fn dfs_order(self, i: int) -> Seq<usize>
        decreases self.len() - i, self.kids(i).len() + 1,
    {
        if 0 <= i < self.len() {
            seq![i as usize] + self.dfs_kids(i, self.kids(i).len() as int)
        } else {
            seq![]
        }
    }

    /// Subtrees of the first `k` children of `i`, child `k - 1` first.
    pub open spec fn dfs_kids(self, i: int, k: int) -> Seq<usize>
        decreases self.len() - i, k,
    {
        if 0 <= i < self.len() && 0 < k <= self.kids(i).len() {
            let c = self.kids(i)[k - 1];
            (if i < c < self.len() {
                self.dfs_order(c as int)
            } else {
                seq![]
            }) + self.dfs_kids(i, k - 1)
        } else {
            seq![]
        }
    }

    /// Concatenated subtrees of a stack of nodes, top (last) first.
    pub open spec fn flat(self, st: Seq<usize>) -> Seq<usize>
        decreases st.len(),
    {
        if st.len() == 0 {
            seq![]
        } else {
            self.dfs_order(st.last() as int) + self.flat(st.drop_last())
        }
    }

    /// Number of nodes in the subtree at `i`.
    pub open spec fn subtree_size(self, i: int) -> nat {
        self.dfs_order(i).len()
    }

    /// `y` lies on the parent chain of `x` (or is `x`).
    pub open spec fn anc(self, x: int, y: int) -> bool
        decreases x,
    {
        if x == y {
            true
        } else if 0 <= x < self.len() {
            match self.nodes[x].parent {
                Some(p) => p < x && self.anc(p as int, y),
                None => false,
            }
        } else {
            false
        }
    }

    /// Distance from `i` to the root along parent links.
    pub open spec fn depth(self, i: int) -> nat
        decreases i,
    {
        if 0 <= i < self.len() {
            match self.nodes[i].parent {
                Some(p) => if p < i {
                    1 + self.depth(p as int)
                } else {
                    0
                },
                None => 0,
            }
        } else {
            0
        }
    }

    /// The node obtained from node `i` of `o` when `o` is copied to the end of an
    /// arena of `offset` nodes and its root hung below node `p`.
    pub open spec fn shifted(o: TreeView, i: int, offset: int, p: usize) -> NodeView {
        NodeView {
            label: o.nodes[i].label,
            children: o.nodes[i].children.map_values(|c: usize| (c + offset) as usize),
            parent: if i == o.root {
                Some(p)
            } else {
                match o.nodes[i].parent {
                    Some(q) => Some((q + offset) as usize),
                    None => None,
                }
            },
        }
    }

    /// The arena after copying `o` to its end and hanging the copy below node `p`.
    pub open spec fn graft_view(self, p: usize, o: TreeView) -> TreeView {
        let offset = self.len() as int;
        let old_p = self.nodes[p as int];
        let hung = NodeView {
            label: old_p.label,
            children: old_p.children.push((o.root + offset) as usize),
            parent: old_p.parent,
        };
        TreeView {
            nodes: self.nodes.update(p as int, hung) + Seq::new(
                o.len(),
                |i: int| TreeView::shifted(o, i, offset, p),
            ),
            root: self.root,
        }
    }

    /// The arena after appending a leaf labelled `label` below node `p`.
    pub open spec fn add_child_view(self, p: usize, label: u32) -> TreeView {
        let n = self.nodes[p as int];
        TreeView {
            nodes: self.nodes.update(
                p as int,
                NodeView { label: n.label, children: n.children.push(self.len() as usize), parent: n.parent },
            ).push(NodeView { label, children: seq![], parent: Some(p) }),
            root: self.root,
        }
    }

    /// Adding a child appends it: the new node comes last in the arena, is a leaf
    /// with the given label and parent `p`, and comes last among `p`'s
    /// children, after the children `p` already had, in their order; every
    /// other node is unchanged.
    pub proof fn lemma_add_child_appends(self, p: usize, label: u32)
        requires
            p < self.len(),
        ensures
            self.add_child_view(p, label).len() == self.len() + 1,
            self.add_child_view(p, label).root == self.root,
            self.add_child_view(p, label).kids(p as int) == self.kids(p as int).push(self.len() as usize),
            self.add_child_view(p, label).label(p as int) == self.label(p as int),
            self.add_child_view(p, label).nodes[p as int].parent == self.nodes[p as int].parent,
            self.add_child_view(p, label).label(self.len() as int) == label,
            self.add_child_view(p, label).kids(self.len() as int).len() == 0,
            self.add_child_view(p, label).nodes[self.len() as int].parent == Some(p),
            forall|i: int| 0 <= i < self.len() && i != p ==> #[trigger] self.add_child_view(p, label).nodes[i] == self.nodes[i],
    {
        let n = self.add_child_view(p, label);
        assert forall|i: int| 0 <= i < self.len() && i != p implies #[trigger] n.nodes[i] == self.nodes[i] by {}
    }

    /// Grafting copies `o` to the end of the arena and hangs the copy below `p`:
    /// the copy's root comes last among `p`'s children, after the children `p`
    /// already had, node `j` of `o` becomes node `len + j` with the same label and
    /// its children shifted by `len`, and every other node is unchanged.
    pub proof fn lemma_graft_appends(self, p: usize, o: TreeView)
        requires
            p < self.len(),
            o.root < o.len(),
            o.indices_fit(self.len() as int),
        ensures
            self.graft_view(p, o).len() == self.len() + o.len(),
            self.graft_view(p, o).root == self.root,
            self.graft_view(p, o).kids(p as int) == self.kids(p as int).push((self.len() + o.root) as usize),
            self.graft_view(p, o).label(p as int) == self.label(p as int),
            self.graft_view(p, o).nodes[p as int].parent == self.nodes[p as int].parent,
            forall|i: int| 0 <= i < self.len() && i != p ==> #[trigger] self.graft_view(p, o).nodes[i] == self.nodes[i],
            forall|j: int| 0 <= j < o.len() ==> #[trigger] self.graft_view(p, o).label(self.len() + j) == o.label(j),
            forall|j: int, m: int| 0 <= j < o.len() && 0 <= m < o.kids(j).len() ==> #[trigger] self.graft_view(p, o).kids(
                self.len() + j,
            )[m] == o.kids(j)[m] + self.len(),
            forall|j: int| 0 <= j < o.len() ==> #[trigger] self.graft_view(p, o).kids(self.len() + j).len() == o.kids(j).len(),
            self.graft_view(p, o).nodes[self.len() + o.root].parent == Some(p),
            forall|j: int| 0 <= j < o.len() && j != o.root ==> #[trigger] self.graft_view(p, o).nodes[self.len() + j].parent
                == match o.nodes[j].parent {
                Some(q) => Some((q + self.len()) as usize),
                None => None,
            },
    {
        let n = self.graft_view(p, o);
        let l = self.len() as int;
        assert forall|i: int| 0 <= i < self.len() && i != p implies #[trigger] n.nodes[i] == self.nodes[i] by {}
        assert forall|j: int| 0 <= j < o.len() implies #[trigger] n.nodes[l + j] == TreeView::shifted(o, j, l, p) by {}
        assert forall|j: int| 0 <= j < o.len() implies #[trigger] n.label(l + j) == o.label(j) by {
            assert(n.nodes[l + j] == TreeView::shifted(o, j, l, p));
        }
        assert forall|j: int| 0 <= j < o.len() implies #[trigger] n.kids(l + j).len() == o.kids(j).len() by {
            assert(n.nodes[l + j] == TreeView::shifted(o, j, l, p));
        }
        assert forall|j: int, m: int| 0 <= j < o.len() && 0 <= m < o.kids(j).len() implies #[trigger] n.kids(l + j)[m]
            == o.kids(j)[m] + l by {
            assert(n.nodes[l + j] == TreeView::shifted(o, j, l, p));
            assert(o.kids(j)[m] + l <= usize::MAX);
        }
        assert(n.nodes[l + o.root] == TreeView::shifted(o, o.root as int, l, p));
        assert forall|j: int| 0 <= j < o.len() && j != o.root implies #[trigger] n.nodes[l + j].parent == match o.nodes[j].parent {
            Some(q) => Some((q + l) as usize),
            None => None,
        } by {
            assert(n.nodes[l + j] == TreeView::shifted(o, j, l, p));
        }
    }

    /// Every index stored in the arena, shifted by `offset`, still fits in a `usize`.
    pub open spec fn indices_fit(self, offset: int) -> bool {
        &&& self.root + offset <= usize::MAX
        &&& forall|i: int, j: int|
            0 <= i < self.len() && 0 <= j < self.kids(i).len() ==> #[trigger] self.kids(i)[j]
                + offset <= usize::MAX
        &&& forall|i: int|
            0 <= i < self.len() ==> (#[trigger] self.nodes[i].parent matches Some(q) ==> q + offset
                <= usize::MAX)
    }

    /// Largest depth among nodes `0..n`.
    pub open spec fn max_depth_upto(self, n: int) -> nat
        decreases n,
    {
        if n <= 0 {
            0
        } else {
            let d = self.depth(n - 1);
            let m = self.max_depth_upto(n - 1);
            if d > m {
                d
            } else {
                m
            }
        }
    }
}

/// Depth counts edges from the root: the root has depth 0, and every child is
/// one deeper than its parent.
pub proof fn lemma_depth_steps(t: TreeView)
    requires
        t.wf(),
    ensures
        t.depth(0) == 0,
        forall|i: int, j: int| 0 <= i < t.len() && 0 <= j < t.kids(i).len() ==> #[trigger] t.depth(t.kids(i)[j] as int)
            == t.depth(i) + 1,
{
    assert forall|i: int, j: int| 0 <= i < t.len() && 0 <= j < t.kids(i).len() implies #[trigger] t.depth(
        t.kids(i)[j] as int,
    ) == t.depth(i) + 1 by {
        let c = t.kids(i)[j] as int;
        assert(i < c < t.len());
        assert(t.nodes[c].parent == Some(i as usize));
    }
}

/// The largest depth among the first `n` nodes bounds each of their depths and
/// is the depth of one of them (0 when there are none).
pub proof fn lemma_max_depth_is_max(t: TreeView, n: int)
    requires
        0 <= n <= t.len(),
    ensures
        forall|i: int| 0 <= i < n ==> #[trigger] t.depth(i) <= t.max_depth_upto(n),
        n == 0 || exists|i: int| 0 <= i < n && t.depth(i) == t.max_depth_upto(n),
    decreases n,
{
    if n > 0 {
        lemma_max_depth_is_max(t, n - 1);
        if n - 1 > 0 && t.depth(n - 1) <= t.max_depth_upto(n - 1) {
            let i = choose|i: int| 0 <= i < n - 1 && t.depth(i) == t.max_depth_upto(n - 1);
            assert(t.depth(i) == t.max_depth_upto(n));
        }
    }
}

/// A node's depth never exceeds its index.
pub proof fn lemma_depth_le(t: TreeView, i: int)
    requires
        0 <= i,
    ensures
        t.depth(i) <= i,
    decreases i,
{
    if 0 <= i < t.len() {
        if let Some(p) = t.nodes[i].parent {
            if p < i {
                lemma_depth_le(t, p as int);
            }
        }
    }
}

/// Total number of nodes of a list of trees.
pub open spec fn total_len(ts: Seq<Tree>) -> nat
    decreases ts.len(),
{
    if ts.len() == 0 {
        0
    } else {
        total_len(ts.drop_last()) + ts.last()@.len()
    }
}

proof fn lemma_total_len_prefix(ts: Seq<Tree>, k: int)
    requires
        0 < k <= ts.len(),
    ensures
        total_len(ts.take(k)) == total_len(ts.take(k - 1)) + ts[k - 1]@.len(),
        total_len(ts.take(k)) <= total_len(ts),
    decreases ts.len() - k,
{
    assert(ts.take(k).drop_last() == ts.take(k - 1));
    if k < ts.len() {
        lemma_total_len_prefix(ts, k + 1);
    } else {
        assert(ts.take(k) == ts);
    }
}

/// A well-formed tree's indices stay in range when shifted by up to the room left.
pub proof fn lemma_wf_fits(o: TreeView, offset: int)
    requires
        o.wf(),
        0 <= offset,
        offset + o.len() <= usize::MAX,
    ensures
        o.indices_fit(offset),
{
    assert forall|i: int| 0 <= i < o.len() implies (#[trigger] o.nodes[i].parent matches Some(q) ==> q + offset
        <= usize::MAX) by {
        if i > 0 {
            let q = o.nodes[i].parent.unwrap();
        }
    }
}

/// Grafting one well-formed tree below a node of another keeps it well formed.
pub proof fn lemma_graft_wf(t: TreeView, p: usize, o: TreeView)
    requires
        t.wf(),
        o.wf(),
        p < t.len(),
        t.len() + o.len() <= usize::MAX,
    ensures
        t.graft_view(p, o).wf(),
{
    let n = t.graft_view(p, o);
    let l = t.len() as int;
    assert(n.nodes[p as int].children == t.kids(p as int).push(l as usize));
    assert forall|x: int| l <= x < n.len() implies #[trigger] n.nodes[x] == TreeView::shifted(o, x - l, l, p) by {}
    assert forall|x: int| 0 <= x < l && x != p implies #[trigger] n.nodes[x] == t.nodes[x] by {}
    assert forall|i: int, j: int|
        0 <= i < n.len() && 0 <= j < n.kids(i).len() implies i < #[trigger] n.kids(i)[j] < n.len()
            && n.nodes[n.kids(i)[j] as int].parent == Some(i as usize) by {
        if i < l {
            if i == p && j == t.kids(i).len() {
                assert(n.kids(i)[j] == l);
                assert(n.nodes[l] == TreeView::shifted(o, 0, l, p));
            } else {
                assert(n.kids(i)[j] == t.kids(i)[j]);
                let c = t.kids(i)[j];
                assert(i < c < l);
                if c == p {
                    assert(n.nodes[c as int].parent == t.nodes[c as int].parent);
                } else {
                    assert(n.nodes[c as int] == t.nodes[c as int]);
                }
            }
        } else {
            let oi = i - l;
            assert(n.nodes[i] == TreeView::shifted(o, oi, l, p));
            let c = o.kids(oi)[j];
            assert(oi < c < o.len());
            assert(n.kids(i)[j] == c + l);
            assert(n.nodes[c + l] == TreeView::shifted(o, c as int, l, p));
            assert(o.nodes[c as int].parent == Some(oi as usize));
        }
    }
    assert forall|i: int| 0 <= i < n.len() implies #[trigger] n.kids(i).no_duplicates() by {
        if i < l {
            assert(t.kids(i).no_duplicates());
            if i == p {
                assert forall|a: int, b: int| 0 <= a < n.kids(i).len() && 0 <= b < n.kids(i).len() && a != b
                    implies n.kids(i)[a] != n.kids(i)[b] by {
                    if a < t.kids(i).len() && b < t.kids(i).len() {
                    } else if a < t.kids(i).len() {
                        assert(t.kids(i)[a] < l);
                    } else {
                        assert(t.kids(i)[b] < l);
                    }
                }
            }
        } else {
            let oi = i - l;
            assert(o.kids(oi).no_duplicates());
            assert forall|a: int, b: int| 0 <= a < n.kids(i).len() && 0 <= b < n.kids(i).len() && a != b
                implies n.kids(i)[a] != n.kids(i)[b] by {
                assert(o.kids(oi)[a] != o.kids(oi)[b]);
                assert(o.kids(oi)[a] < o.len());
                assert(o.kids(oi)[b] < o.len());
            }
        }
    }
    assert forall|i: int| 0 < i < n.len() implies (#[trigger] n.nodes[i].parent matches Some(q)
        && q < i && n.kids(q as int).contains(i as usize)) by {
        if i < l {
            let q = t.nodes[i].parent.unwrap();
            assert(t.kids(q as int).contains(i as usize));
            let j = choose|j: int| 0 <= j < t.kids(q as int).len() && t.kids(q as int)[j] == i as usize;
            assert(n.kids(q as int)[j] == i as usize);
        } else if i == l {
            assert(n.kids(p as int)[t.kids(p as int).len() as int] == i as usize);
        } else {
            let oi = i - l;
            let q = o.nodes[oi].parent.unwrap();
            assert(o.kids(q as int).contains(oi as usize));
            let j = choose|j: int| 0 <= j < o.kids(q as int).len() && o.kids(q as int)[j] == oi as usize;
            assert(n.nodes[q + l] == TreeView::shifted(o, q as int, l, p));
            assert(n.kids(q + l)[j] == i as usize);
        }
    }
}

/// The model of a one-node tree.
pub open spec fn single_view(label: u32) -> TreeView {
    TreeView { nodes: seq![NodeView { label, children: seq![], parent: None }], root: 0 }
}

/// The model of a root labelled `label` above copies of `kids`, grafted in order.
pub open spec fn build_view(label: u32, kids: Seq<TreeView>) -> TreeView
    decreases kids.len(),
{
    if kids.len() == 0 {
        single_view(label)
    } else {
        build_view(label, kids.drop_last()).graft_view(0, kids.last())
    }
}

fn copy_indices(v: &Vec<usize>) -> (r: Vec<usize>)
    ensures
        r@ == v@,
{
    let mut r: Vec<usize> = Vec::with_capacity(v.len());
    let mut i: usize = 0;
    while i < v.len()
        invariant
            i <= v.len(),
            r@ == v@.take(i as int),
        decreases v.len() - i,
    {
        r.push(v[i]);
        i += 1;
        assert(r@ == v@.take(i as int));
    }
    assert(v@.take(v.len() as int) == v@);
    r
}

impl Clone for Node {
    fn clone(&self) -> (r: Self)
        ensures
            r@ == self@,
    {
        Node { label: self.label, children: copy_indices(&self.children), parent: self.parent }
    }
}

impl Clone for Tree {
    fn clone(&self) -> (r: Self)
        ensures
            r@ == self@,
    {
        let mut nodes: Vec<Node> = Vec::with_capacity(self.nodes.len());
        let mut i: usize = 0;
        while i < self.nodes.len()
            invariant
                i <= self.nodes.len(),
                nodes@.len() == i,
                forall|k: int| 0 <= k < i ==> nodes@[k]@ == self.nodes@[k]@,
            decreases self.nodes.len() - i,
        {
            nodes.push(self.nodes[i].clone());
            i += 1;
        }
        let r = Tree { nodes, root: self.root };
        assert(r@.nodes =~= self@.nodes);
        r
    }
}

impl Tree {
    /// Create a tree with a single node (the root) with given label.
    pub fn new_single_node(label: u32) -> (t: Tree)
        ensures
            t@ == single_view(label),
            t@.wf(),
    {
        let t = Tree { nodes: vec![Node { label, children: Vec::new(), parent: None }], root: 0 };
        assert(t@.nodes =~= single_view(label).nodes);
        t
    }

    /// Add a child node with the given label under parent_idx.
    /// Returns the index of the new child node.
    pub fn add_child(&mut self, parent_idx: usize, label: u32) -> (child_idx: usize)
        requires
            parent_idx < old(self).nodes.len(),
            old(self).nodes.len() < usize::MAX,
        ensures
            child_idx == old(self).nodes.len(),
            final(self)@ == old(self)@.add_child_view(parent_idx, label),
            final(self)@.kids(parent_idx as int) == old(self)@.kids(parent_idx as int).push(child_idx),
            final(self)@.label(child_idx as int) == label,
            final(self)@.nodes[child_idx as int].parent == Some(parent_idx),
            old(self)@.wf() ==> final(self)@.wf(),
    {
        let child_idx = self.nodes.len();
        self.nodes.push(Node { label, children: Vec::new(), parent: Some(parent_idx) });
        let mut tmp = Node { label: 0, children: Vec::new(), parent: None };
        self.nodes.set_and_swap(parent_idx, &mut tmp);
        tmp.children.push(child_idx);
        self.nodes.set_and_swap(parent_idx, &mut tmp);
        proof {
            let o = old(self)@;
            let n = self@;
            assert(n.nodes =~= o.add_child_view(parent_idx, label).nodes);
            if o.wf() {
                assert forall|i: int, j: int|
                    0 <= i < n.len() && 0 <= j < n.kids(i).len() implies i < #[trigger] n.kids(i)[j]
                        < n.len() && n.nodes[n.kids(i)[j] as int].parent == Some(i as usize) by {
                    if i != parent_idx && i < o.len() {
                        assert(n.kids(i) == o.kids(i));
                        assert(o.kids(i)[j] < o.len());
                    } else if i == parent_idx && j < o.kids(i).len() {
                        assert(n.kids(i)[j] == o.kids(i)[j]);
                        assert(o.kids(i)[j] < o.len());
                    }
                }
                assert forall|i: int| 0 <= i < n.len() implies #[trigger] n.kids(i).no_duplicates() by {
                    if i == parent_idx {
                        assert(o.kids(i).no_duplicates());
                        assert forall|a: int, b: int| 0 <= a < n.kids(i).len() && 0 <= b < n.kids(i).len() && a != b
                            implies n.kids(i)[a] != n.kids(i)[b] by {
                            if a < o.kids(i).len() && b < o.kids(i).len() {
                            } else if a < o.kids(i).len() {
                                assert(o.kids(i)[a] < o.len());
                            } else {
                                assert(o.kids(i)[b] < o.len());
                            }
                        }
                    } else if i < o.len() {
                        assert(n.kids(i) == o.kids(i));
                    }
                }
                assert forall|i: int| 0 < i < n.len() implies (#[trigger] n.nodes[i].parent matches Some(p)
                    && p < i && n.kids(p as int).contains(i as usize)) by {
                    if i < o.len() {
                        let p = o.nodes[i].parent.unwrap();
                        assert(o.kids(p as int).contains(i as usize));
                        let j = choose|j: int| 0 <= j < o.kids(p as int).len() && o.kids(p as int)[j] == i as usize;
                        assert(n.kids(p as int)[j] == i as usize);
                    } else {
                        assert(n.kids(parent_idx as int)[o.kids(parent_idx as int).len() as int] == i as usize);
                    }
                }
            }
        }
        child_idx
    }

    /// Number of nodes in the tree.
    pub fn size(&self) -> (n: usize)
        ensures
            n == self@.len(),
    {
        self.nodes.len()
    }

    /// Depth of a node (root = 0).
    pub fn depth(&self, node_idx: usize) -> (d: usize)
        requires
            self@.wf(),
            node_idx < self@.len(),
        ensures
            d == self@.depth(node_idx as int),
    {
        let ghost t = self@;
        let mut depth: usize = 0;
        let mut current: usize = node_idx;
        proof {
            lemma_depth_le(t, node_idx as int);
        }
        while self.nodes[current].parent.is_some()
            invariant
                t == self@,
                t.wf(),
                current < t.len(),
                depth + t.depth(current as int) == t.depth(node_idx as int),
                t.depth(node_idx as int) <= node_idx,
            decreases current,
        {
            let p = self.nodes[current].parent.unwrap();
            assert(p < current);
            depth += 1;
            current = p;
        }
        depth
    }

    /// Maximum depth of any node.
    pub fn max_depth(&self) -> (m: usize)
        requires
            self@.wf(),
        ensures
            m == self@.max_depth_upto(self@.len() as int),
    {
        let mut m: usize = 0;
        let mut i: usize = 0;
        while i < self.nodes.len()
            invariant
                self@.wf(),
                i <= self@.len(),
                m == self@.max_depth_upto(i as int),
            decreases self@.len() - i,
        {
            let d = self.depth(i);
            if d > m {
                m = d;
            }
            i += 1;
        }
        m
    }

    /// Push the children of `n` onto `stack`, first child first.
    fn push_children(&self, stack: &mut Vec<usize>, n: usize)
        requires
            n < self@.len(),
        ensures
            final(stack)@ == old(stack)@ + self@.kids(n as int),
    {
        let children = &self.nodes[n].children;
        let mut j: usize = 0;
        while j < children.len()
            invariant
                children@ == self@.kids(n as int),
                j <= children.len(),
                stack@ == old(stack)@ + children@.take(j as int),
            decreases children.len() - j,
        {
            stack.push(children[j]);
            j += 1;
            assert(stack@ == old(stack)@ + children@.take(j as int));
        }
        assert(children@.take(children.len() as int) == children@);
    }

    /// Get all nodes in the subtree rooted at node_idx (including node_idx itself).
    pub fn subtree_nodes(&self, node_idx: usize) -> (r: Vec<usize>)
        requires
            self@.wf(),
            node_idx < self@.len(),
        ensures
            r@ == self@.dfs_order(node_idx as int),
            r@.no_duplicates(),
            r@[0] == node_idx,
            forall|x: usize| #[trigger] r@.contains(x) <==> (x < self@.len() && self@.anc(x as int, node_idx as int)),
    {
        let ghost t = self@;
        proof {
            lemma_dfs_props(t, node_idx as int);
            crate::subtree::lemma_dfs_is_descendants(t, node_idx as int);
        }
        let mut result: Vec<usize> = Vec::new();
        let mut stack: Vec<usize> = vec![node_idx];
        assert(t.flat(stack@) == t.dfs_order(node_idx as int) + t.flat(seq![])) by {
            assert(stack@.drop_last() =~= seq![]);
        }
        assert(t.flat(stack@) =~= t.dfs_order(node_idx as int));
        while stack.len() > 0
            invariant
                t == self@,
                t.wf(),
                node_idx < t.len(),
                result@ + t.flat(stack@) == t.dfs_order(node_idx as int),
                forall|k: int| 0 <= k < stack@.len() ==> #[trigger] stack@[k] < t.len(),
            decreases t.flat(stack@).len(),
        {
            let ghost before = stack@;
            let n = stack.pop().unwrap();
            proof {
                assert(before.last() == n);
                assert(before.drop_last() == stack@);
                lemma_dfs_unfold(t, n as int);
                lemma_flat_append(t, stack@, t.kids(n as int));
            }
            let ghost rest = stack@;
            result.push(n);
            self.push_children(&mut stack, n);
            proof {
                assert(result@ + t.flat(stack@) =~= t.dfs_order(node_idx as int));
                assert forall|k: int| 0 <= k < stack@.len() implies #[trigger] stack@[k] < t.len() by {
                    if k >= rest.len() {
                        assert(stack@[k] == t.kids(n as int)[k - rest.len()]);
                    } else {
                        assert(stack@[k] == before[k]);
                    }
                }
            }
        }
        assert(result@ == result@ + t.flat(stack@));
        result
    }

    /// Number of nodes in the subtree rooted at node_idx.
    pub fn subtree_size(&self, node_idx: usize) -> (c: usize)
        requires
            self@.wf(),
            node_idx < self@.len(),
        ensures
            c == self@.subtree_size(node_idx as int),
    {
        let ghost t = self@;
        let mut count: usize = 0;
        let mut stack: Vec<usize> = vec![node_idx];
        assert(t.flat(stack@) == t.dfs_order(node_idx as int) + t.flat(seq![])) by {
            assert(stack@.drop_last() =~= seq![]);
        }
        assert(t.flat(stack@) =~= t.dfs_order(node_idx as int));
        proof {
            lemma_dfs_len(t, node_idx as int);
        }
        while stack.len() > 0
            invariant
                t == self@,
                t.wf(),
                node_idx < t.len(),
                count + t.flat(stack@).len() == t.subtree_size(node_idx as int),
                t.subtree_size(node_idx as int) <= t.len(),
                t.len() <= usize::MAX,
                forall|k: int| 0 <= k < stack@.len() ==> #[trigger] stack@[k] < t.len(),
            decreases t.flat(stack@).len(),
        {
            let ghost before = stack@;
            let n = stack.pop().unwrap();
            proof {
                assert(before.last() == n);
                assert(before.drop_last() == stack@);
                lemma_dfs_unfold(t, n as int);
                lemma_flat_append(t, stack@, t.kids(n as int));
            }
            let ghost rest = stack@;
            count += 1;
            self.push_children(&mut stack, n);
            proof {
                assert forall|k: int| 0 <= k < stack@.len() implies #[trigger] stack@[k] < t.len() by {
                    if k >= rest.len() {
                        assert(stack@[k] == t.kids(n as int)[k - rest.len()]);
                    } else {
                        assert(stack@[k] == before[k]);
                    }
                }
            }
        }
        count
    }

    /// Precompute subtree sizes for all nodes in O(n).
    /// Returns a Vec<usize> indexed by node index.
    pub fn all_subtree_sizes(&self) -> (sizes: Vec<usize>)
        requires
            self@.wf(),
        ensures
            sizes@.len() == self@.len(),
            forall|i: int| 0 <= i < self@.len() ==> #[trigger] sizes@[i] == self@.subtree_size(i),
    {
        let ghost t = self@;
        let n = self.nodes.len();
        let mut sizes: Vec<usize> = vec![1usize; n];
        let order = self.subtree_nodes(self.root);
        proof {
            lemma_root_covers(t);
            lemma_dfs_props(t, 0);
            assert forall|q: int| 0 <= q < n implies #[trigger] order@[q] < n by {
                assert(order@.contains(order@[q]));
            }
            assert forall|q: int| 0 <= q < n implies #[trigger] sizes@[order@[q] as int] == 1 by {
                assert(order@[q] < n);
            }
        }
        let mut k: usize = n;
        while k > 0
            invariant
                t == self@,
                t.wf(),
                n == t.len(),
                order@ == t.dfs_order(0),
                order@.len() == n,
                order@.no_duplicates(),
                forall|x: usize| x < n ==> #[trigger] order@.contains(x),
                forall|q: int| 0 <= q < n ==> #[trigger] order@[q] < n,
                k <= n,
                sizes@.len() == n,
                forall|q: int| k <= q < n ==> #[trigger] sizes@[order@[q] as int] == t.subtree_size(order@[q] as int),
                forall|q: int| 0 <= q < k ==> #[trigger] sizes@[order@[q] as int] == 1,
            decreases k,
        {
            k -= 1;
            let node = order[k];
            proof {
                assert(order@.contains(node));
                lemma_dfs_props(t, 0);
                lemma_size_unfold(t, node as int);
                lemma_dfs_len(t, node as int);
            }
            let children = &self.nodes[node].children;
            let mut j: usize = 0;
            while j < children.len()
                invariant
                    t == self@,
                    t.wf(),
                    n == t.len(),
                    node < n,
                    node == order@[k as int],
                    children@ == t.kids(node as int),
                    order@ == t.dfs_order(0),
                    order@.len() == n,
                    order@.no_duplicates(),
                    forall|q: int| 0 <= q < n ==> #[trigger] order@[q] < n,
                    k < n,
                    j <= children.len(),
                    sizes@.len() == n,
                    sizes@[node as int] == 1 + sum_sizes(t, children@.take(j as int)),
                    t.subtree_size(node as int) == 1 + sum_sizes(t, children@),
                    t.subtree_size(node as int) <= n,
                    forall|q: int| k < q < n ==> #[trigger] sizes@[order@[q] as int] == t.subtree_size(order@[q] as int),
                    forall|q: int| 0 <= q < k ==> #[trigger] sizes@[order@[q] as int] == 1,
                decreases children.len() - j,
            {
                let c = children[j];
                proof {
                    lemma_child_after(t, 0, k as int, j as int);
                    let q2 = choose|q2: int| k < q2 < n && order@[q2] == c;
                    assert(sizes@[order@[q2] as int] == t.subtree_size(c as int));
                    assert(children@.take(j as int + 1).drop_last() == children@.take(j as int));
                    lemma_sum_sizes_prefix(t, children@, j as int + 1);
                }
                let v = sizes[node] + sizes[c];
                let ghost prev = sizes@;
                sizes.set(node, v);
                j += 1;
                proof {
                    assert forall|q: int| k < q < n implies #[trigger] sizes@[order@[q] as int] == t.subtree_size(order@[q] as int) by {
                        assert(order@[q] != order@[k as int]);
                        assert(prev[order@[q] as int] == t.subtree_size(order@[q] as int));
                    }
                    assert forall|q: int| 0 <= q < k implies #[trigger] sizes@[order@[q] as int] == 1 by {
                        assert(order@[q] != order@[k as int]);
                        assert(prev[order@[q] as int] == 1);
                    }
                }
            }
            assert(children@.take(children@.len() as int) == children@);
        }
        assert forall|i: int| 0 <= i < self@.len() implies #[trigger] sizes@[i] == self@.subtree_size(i) by {
            assert(order@.contains(i as usize));
            let q = choose|q: int| 0 <= q < n && order@[q] == i as usize;
        }
        sizes
    }

    /// Graft a copy of `other` tree as a child of `parent_idx` in self.
    pub fn graft(&mut self, parent_idx: usize, other: &Tree)
        requires
            parent_idx < old(self)@.len(),
            old(self)@.len() + other@.len() <= usize::MAX,
            other@.indices_fit(old(self)@.len() as int),
        ensures
            final(self)@ == old(self)@.graft_view(parent_idx, other@),
            old(self)@.wf() && other@.wf() ==> final(self)@.wf(),
    {
        let ghost t = self@;
        let ghost o = other@;
        let offset = self.nodes.len();
        let mut i: usize = 0;
        while i < other.nodes.len()
            invariant
                o == other@,
                offset == t.len(),
                offset + o.len() <= usize::MAX,
                o.indices_fit(offset as int),
                parent_idx < offset,
                i <= o.len(),
                self@.root == t.root,
                self@.nodes == t.nodes + Seq::new(
                    i as nat,
                    |k: int| TreeView::shifted(o, k, offset as int, parent_idx),
                ),
            decreases o.len() - i,
        {
            let node = &other.nodes[i];
            assert(node@ == o.nodes[i as int]);
            assert(o.nodes[i as int].parent matches Some(q) ==> q + offset <= usize::MAX);
            let new_parent = if i == other.root {
                Some(parent_idx)
            } else {
                match node.parent {
                    Some(p) => Some(p + offset),
                    None => None,
                }
            };
            let mut children: Vec<usize> = Vec::with_capacity(node.children.len());
            let mut j: usize = 0;
            while j < node.children.len()
                invariant
                    node@ == o.nodes[i as int],
                    o.indices_fit(offset as int),
                    i < o.len(),
                    j <= node.children.len(),
                    children@ == node.children@.take(j as int).map_values(|c: usize| (c + offset) as usize),
                decreases node.children.len() - j,
            {
                assert(o.kids(i as int)[j as int] == node.children@[j as int]);
                children.push(node.children[j] + offset);
                j += 1;
                assert(children@ =~= node.children@.take(j as int).map_values(|c: usize| (c + offset) as usize));
            }
            assert(node.children@.take(node.children.len() as int) == node.children@);
            let ghost before = self@.nodes;
            let new_node = Node { label: node.label, children, parent: new_parent };
            assert(new_node@.children =~= TreeView::shifted(o, i as int, offset as int, parent_idx).children);
            assert(new_node@ == TreeView::shifted(o, i as int, offset as int, parent_idx));
            self.nodes.push(new_node);
            assert(self@.nodes == before.push(new_node@));
            i += 1;
            assert(self@.nodes =~= t.nodes + Seq::new(
                i as nat,
                |k: int| TreeView::shifted(o, k, offset as int, parent_idx),
            ));
        }
        let child_root = other.root + offset;
        let ghost mid = self.nodes@;
        assert(self@.nodes.len() == mid.len());
        assert(mid.len() == t.len() + o.len());
        assert(self@.nodes[parent_idx as int] == mid[parent_idx as int]@);
        assert((t.nodes + Seq::new(
            o.len(),
            |k: int| TreeView::shifted(o, k, offset as int, parent_idx),
        ))[parent_idx as int] == t.nodes[parent_idx as int]);
        assert(mid[parent_idx as int]@ == t.nodes[parent_idx as int]);
        let mut tmp = Node { label: 0, children: Vec::new(), parent: None };
        self.nodes.set_and_swap(parent_idx, &mut tmp);
        assert(tmp == mid[parent_idx as int]);
        tmp.children.push(child_root);
        self.nodes.set_and_swap(parent_idx, &mut tmp);
        assert(self.nodes@ == mid.update(parent_idx as int, self.nodes@[parent_idx as int]));
        assert(self.nodes@[parent_idx as int]@.children == t.nodes[parent_idx as int].children.push(child_root));
        proof {
            let g = t.graft_view(parent_idx, o);
            assert(self@.nodes.len() == g.nodes.len());
            assert forall|x: int| 0 <= x < g.nodes.len() implies self@.nodes[x] == g.nodes[x] by {
                assert(self@.nodes[x] == self.nodes@[x]@);
                if x != parent_idx {
                    assert(self.nodes@[x] == mid[x]);
                    assert(mid[x]@ == (t.nodes + Seq::new(
                        o.len(),
                        |k: int| TreeView::shifted(o, k, offset as int, parent_idx),
                    ))[x]);
                } else {
                    assert(self@.nodes[x].children =~= g.nodes[x].children);
                }
            }
            assert(self@.nodes =~= g.nodes);
            if t.wf() && o.wf() {
                lemma_graft_wf(t, parent_idx, o);
            }
        }
    }

    /// Build a tree from a root label and a list of child subtrees.
    /// This clones and re-indexes the child subtrees.
    pub fn from_root_and_children(root_label: u32, children: &[Tree]) -> (t: Tree)
        requires
            forall|k: int| 0 <= k < children@.len() ==> (#[trigger] children@[k])@.wf(),
            1 + total_len(children@) <= usize::MAX,
        ensures
            t@ == build_view(root_label, children@.map_values(|c: Tree| c@)),
            t@.wf(),
            t@.len() == 1 + total_len(children@),
    {
        let mut tree = Tree::new_single_node(root_label);
        let mut k: usize = 0;
        while k < children.len()
            invariant
                forall|q: int| 0 <= q < children@.len() ==> (#[trigger] children@[q])@.wf(),
                1 + total_len(children@) <= usize::MAX,
                k <= children@.len(),
                tree@ == build_view(root_label, children@.take(k as int).map_values(|c: Tree| c@)),
                tree@.wf(),
                tree@.len() == 1 + total_len(children@.take(k as int)),
            decreases children@.len() - k,
        {
            let child = &children[k];
            proof {
                lemma_total_len_prefix(children@, k as int + 1);
                lemma_wf_fits(child@, tree@.len() as int);
            }
            tree.graft(0, child);
            k += 1;
            proof {
                let vs = children@.take(k as int).map_values(|c: Tree| c@);
                assert(vs.drop_last() =~= children@.take(k as int - 1).map_values(|c: Tree| c@));
                assert(vs.last() == child@);
            }
        }
        assert(children@.take(children@.len() as int) == children@);
        tree
    }

    /// Label of a node.
    pub fn label(&self, node_idx: usize) -> (l: u32)
        requires
            node_idx < self@.len(),
        ensures
            l == self@.label(node_idx as int),
    {
        self.nodes[node_idx].label
    }
}

} // verus!
