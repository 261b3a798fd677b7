//! Facts about subtrees of well-formed arena trees.

use vstd::prelude::*;

use crate::tree::TreeView;

verus! {

/// The ancestor relation only climbs to smaller indices.
pub proof fn lemma_anc_le(t: TreeView, x: int, y: int)
    requires
        t.anc(x, y),
    ensures
        y <= x,
    decreases x,
{
    if x != y {
        let p = t.nodes[x].parent.unwrap();
        lemma_anc_le(t, p as int, y);
    }
}

/// A node below child `c` of `i` is also below `i`.
pub proof fn lemma_anc_step(t: TreeView, x: int, c: int, i: int)
    requires
        t.anc(x, c),
        0 <= c < t.len() <= usize::MAX,
        t.nodes[c].parent == Some(i as usize),
        0 <= i < c,
    ensures
        t.anc(x, i),
    decreases x,
{
    if x == c {
        assert(t.anc(i, i));
    } else {
        lemma_anc_le(t, x, c);
        let p = t.nodes[x].parent.unwrap();
        lemma_anc_step(t, p as int, c, i);
    }
}

/// Two ancestors of one node are ordered by the ancestor relation.
pub proof fn lemma_anc_linear(t: TreeView, x: int, a: int, b: int)
    requires
        t.anc(x, a),
        t.anc(x, b),
    ensures
        t.anc(a, b) || t.anc(b, a),
    decreases x,
{
    if x == a || x == b {
    } else {
        let p = t.nodes[x].parent.unwrap();
        lemma_anc_linear(t, p as int, a, b);
    }
}

pub proof fn lemma_no_dup_concat<A>(a: Seq<A>, b: Seq<A>)
    requires
        a.no_duplicates(),
        b.no_duplicates(),
        forall|x: A| a.contains(x) ==> !b.contains(x),
    ensures
        (a + b).no_duplicates(),
{
    assert forall|i: int, j: int| 0 <= i < (a + b).len() && 0 <= j < (a + b).len() && i != j
        implies (a + b)[i] != (a + b)[j] by {
        if i < a.len() && j >= a.len() {
            assert(a.contains((a + b)[i]));
            assert(b.contains((a + b)[j]));
        } else if j < a.len() && i >= a.len() {
            assert(a.contains((a + b)[j]));
            assert(b.contains((a + b)[i]));
        }
    }
}

/// Elements, order and shape of a subtree listing.
pub proof fn lemma_dfs_props(t: TreeView, i: int)
    requires
        t.wf(),
        0 <= i < t.len(),
    ensures
        t.dfs_order(i).len() >= 1,
        t.dfs_order(i)[0] == i,
        t.dfs_order(i).no_duplicates(),
        forall|x: usize| #[trigger] t.dfs_order(i).contains(x) ==> i <= x < t.len() && t.anc(x as int, i),
    decreases t.len() - i, t.kids(i).len() + 1,
{
    let k = t.kids(i).len() as int;
    lemma_dfs_kids_props(t, i, k);
    let d = t.dfs_kids(i, k);
    assert(t.dfs_order(i) == seq![i as usize] + d);
    assert forall|x: usize| #[trigger] t.dfs_order(i).contains(x) implies i <= x < t.len() && t.anc(x as int, i) by {
        if x != i {
            let q = choose|q: int| 0 <= q < t.dfs_order(i).len() && t.dfs_order(i)[q] == x;
            assert(q != 0);
            assert(t.dfs_order(i)[q] == d[q - 1]);
            assert(d[q - 1] == x);
            assert(d.contains(x));
        }
    }
    lemma_no_dup_concat(seq![i as usize], d);
    assert(t.dfs_order(i)[0] == i);
}

/// Elements of the listing of the first `k` children's subtrees.
pub proof fn lemma_dfs_kids_props(t: TreeView, i: int, k: int)
    requires
        t.wf(),
        0 <= i < t.len(),
        0 <= k <= t.kids(i).len(),
    ensures
        t.dfs_kids(i, k).no_duplicates(),
        forall|x: usize| #[trigger] t.dfs_kids(i, k).contains(x) ==> i < x < t.len() && t.anc(x as int, i)
            && exists|j: int| 0 <= j < k && t.anc(x as int, #[trigger] t.kids(i)[j] as int),
    decreases t.len() - i, k,
{
    if k > 0 {
        let c = t.kids(i)[k - 1];
        assert(i < c < t.len());
        lemma_dfs_props(t, c as int);
        lemma_dfs_kids_props(t, i, k - 1);
        let a = t.dfs_order(c as int);
        let b = t.dfs_kids(i, k - 1);
        assert(t.dfs_kids(i, k) == a + b);
        assert forall|x: usize| a.contains(x) implies !b.contains(x) by {
            if b.contains(x) {
                let j = choose|j: int| 0 <= j < k - 1 && t.anc(x as int, #[trigger] t.kids(i)[j] as int);
                let cj = t.kids(i)[j];
                lemma_anc_linear(t, x as int, c as int, cj as int);
                assert(t.kids(i).no_duplicates());
                assert(t.kids(i)[k - 1] != t.kids(i)[j]);
                if t.anc(c as int, cj as int) {
                    assert(t.anc(i, cj as int));
                    lemma_anc_le(t, i, cj as int);
                } else {
                    assert(t.anc(i, c as int));
                    lemma_anc_le(t, i, c as int);
                }
            }
        }
        lemma_no_dup_concat(a, b);
        assert forall|x: usize| #[trigger] t.dfs_kids(i, k).contains(x) implies i < x < t.len() && t.anc(x as int, i)
            && exists|j: int| 0 <= j < k && t.anc(x as int, #[trigger] t.kids(i)[j] as int) by {
            if a.contains(x) {
                lemma_anc_step(t, x as int, c as int, i);
                lemma_anc_le(t, x as int, c as int);
                assert(t.anc(x as int, t.kids(i)[k - 1] as int));
            } else {
                assert(b.contains(x));
            }
        }
    }
}

/// Listing a stack of subtrees distributes over concatenation of stacks.
pub proof fn lemma_flat_append(t: TreeView, a: Seq<usize>, b: Seq<usize>)
    ensures
        t.flat(a + b) == t.flat(b) + t.flat(a),
    decreases b.len(),
{
    if b.len() == 0 {
        assert(a + b == a);
    } else {
        assert((a + b).drop_last() == a + b.drop_last());
        assert((a + b).last() == b.last());
        lemma_flat_append(t, a, b.drop_last());
    }
}

/// The children part of a subtree listing is the listing of the children as a stack.
pub proof fn lemma_dfs_kids_flat(t: TreeView, i: int, k: int)
    requires
        t.wf(),
        0 <= i < t.len(),
        0 <= k <= t.kids(i).len(),
    ensures
        t.dfs_kids(i, k) == t.flat(t.kids(i).take(k)),
    decreases k,
{
    if k > 0 {
        lemma_dfs_kids_flat(t, i, k - 1);
        assert(t.kids(i).take(k).drop_last() == t.kids(i).take(k - 1));
        assert(i < t.kids(i)[k - 1] < t.len());
    }
}

/// `dfs_order(i)` is `i` followed by the listing of its children as a stack.
pub proof fn lemma_dfs_unfold(t: TreeView, i: int)
    requires
        t.wf(),
        0 <= i < t.len(),
    ensures
        t.dfs_order(i) == seq![i as usize] + t.flat(t.kids(i)),
{
    lemma_dfs_kids_flat(t, i, t.kids(i).len() as int);
    assert(t.kids(i).take(t.kids(i).len() as int) == t.kids(i));
}

/// Membership in a stack listing.
pub proof fn lemma_flat_contains(t: TreeView, st: Seq<usize>, x: usize)
    ensures
        t.flat(st).contains(x) <==> exists|j: int| 0 <= j < st.len() && #[trigger] t.dfs_order(st[j] as int).contains(x),
    decreases st.len(),
{
    if st.len() > 0 {
        lemma_flat_contains(t, st.drop_last(), x);
        let a = t.dfs_order(st.last() as int);
        let b = t.flat(st.drop_last());
        if t.flat(st).contains(x) {
            let q = choose|q: int| 0 <= q < t.flat(st).len() && t.flat(st)[q] == x;
            if q < a.len() {
                assert(a[q] == x);
                assert(t.dfs_order(st[st.len() - 1] as int).contains(x));
            } else {
                assert(b[q - a.len()] == x);
                assert(b.contains(x));
                let j = choose|j: int| 0 <= j < st.drop_last().len() && #[trigger] t.dfs_order(st.drop_last()[j] as int).contains(x);
                assert(st.drop_last()[j] == st[j]);
            }
        }
        if exists|j: int| 0 <= j < st.len() && #[trigger] t.dfs_order(st[j] as int).contains(x) {
            let j = choose|j: int| 0 <= j < st.len() && #[trigger] t.dfs_order(st[j] as int).contains(x);
            if j == st.len() - 1 {
                let q = choose|q: int| 0 <= q < a.len() && a[q] == x;
                assert(t.flat(st)[q] == x);
            } else {
                assert(st.drop_last()[j] == st[j]);
                assert(b.contains(x));
                let q = choose|q: int| 0 <= q < b.len() && b[q] == x;
                assert(t.flat(st)[q + a.len()] == x);
            }
        }
    }
}

/// Membership in a subtree: the node itself or a member of a child's subtree.
pub proof fn lemma_dfs_contains(t: TreeView, i: int, x: usize)
    requires
        t.wf(),
        0 <= i < t.len(),
    ensures
        t.dfs_order(i).contains(x) <==> (x == i || exists|j: int|
            0 <= j < t.kids(i).len() && #[trigger] t.dfs_order(t.kids(i)[j] as int).contains(x)),
{
    lemma_dfs_unfold(t, i);
    lemma_flat_contains(t, t.kids(i), x);
    let f = t.flat(t.kids(i));
    if t.dfs_order(i).contains(x) && x != i {
        let q = choose|q: int| 0 <= q < t.dfs_order(i).len() && t.dfs_order(i)[q] == x;
        assert(q != 0);
        assert(f[q - 1] == x);
        assert(f.contains(x));
    }
    if x == i {
        assert(t.dfs_order(i)[0] == x);
    } else if f.contains(x) {
        let q = choose|q: int| 0 <= q < f.len() && f[q] == x;
        assert(t.dfs_order(i)[q + 1] == x);
    }
}

/// Subtree containment is transitive.
pub proof fn lemma_dfs_trans(t: TreeView, x: usize, y: usize, z: int)
    requires
        t.wf(),
        0 <= z < t.len(),
        t.dfs_order(y as int).contains(x),
        t.dfs_order(z).contains(y),
    ensures
        t.dfs_order(z).contains(x),
    decreases t.len() - z,
{
    if y != z {
        lemma_dfs_contains(t, z, y);
        let j = choose|j: int| 0 <= j < t.kids(z).len() && #[trigger] t.dfs_order(t.kids(z)[j] as int).contains(y);
        let c = t.kids(z)[j];
        assert(z < c < t.len());
        lemma_dfs_trans(t, x, y, c as int);
        lemma_dfs_contains(t, z, x);
    }
}

/// A child's subtree lies inside its parent's.
pub proof fn lemma_kid_in_dfs(t: TreeView, i: int, j: int)
    requires
        t.wf(),
        0 <= i < t.len(),
        0 <= j < t.kids(i).len(),
    ensures
        t.dfs_order(i).contains(t.kids(i)[j]),
{
    let c = t.kids(i)[j];
    assert(i < c < t.len());
    lemma_dfs_props(t, c as int);
    assert(t.dfs_order(c as int)[0] == c);
    assert(t.dfs_order(c as int).contains(c));
    lemma_dfs_contains(t, i, c);
}

/// A duplicate-free sequence of indices below `n` has at most `n` elements,
/// and exactly `n` when it holds all of them.
pub proof fn lemma_index_seq_len(s: Seq<usize>, n: int)
    requires
        s.no_duplicates(),
        0 <= n <= usize::MAX,
        forall|k: int| 0 <= k < s.len() ==> s[k] < n,
    ensures
        s.len() <= n,
        (forall|x: usize| x < n ==> s.contains(x)) ==> s.len() == n,
{
    let si = s.map_values(|x: usize| x as int);
    assert forall|a: int, b: int| 0 <= a < si.len() && 0 <= b < si.len() && a != b implies si[a] != si[b] by {
        assert(s[a] != s[b]);
    }
    assert(si.no_duplicates());
    si.unique_seq_to_set();
    vstd::set_lib::lemma_int_range(0, n);
    let r = vstd::set_lib::set_int_range(0, n);
    assert(si.to_set().subset_of(r)) by {
        assert forall|v: int| si.to_set().contains(v) implies r.contains(v) by {
            assert(si.contains(v));
            let k = choose|k: int| 0 <= k < si.len() && si[k] == v;
            assert(s[k] < n);
        }
    }
    vstd::set_lib::lemma_len_subset(si.to_set(), r);
    if forall|x: usize| x < n ==> s.contains(x) {
        assert(si.to_set() =~= r) by {
            assert forall|v: int| r.contains(v) implies si.to_set().contains(v) by {
                let x = v as usize;
                assert(s.contains(x));
                let k = choose|k: int| 0 <= k < s.len() && s[k] == x;
                assert(si[k] == v);
            }
        }
    }
}

/// A subtree has at most as many nodes as indices from its root to the end.
pub proof fn lemma_dfs_len(t: TreeView, i: int)
    requires
        t.wf(),
        0 <= i < t.len(),
    ensures
        1 <= t.subtree_size(i) <= t.len() - i,
{
    lemma_dfs_props(t, i);
    let s = t.dfs_order(i);
    let sh = s.map_values(|x: usize| (x - i) as usize);
    assert forall|a: int, b: int| 0 <= a < sh.len() && 0 <= b < sh.len() && a != b implies sh[a] != sh[b] by {
        assert(s.contains(s[a]));
        assert(s.contains(s[b]));
        assert(s[a] != s[b]);
    }
    assert forall|k: int| 0 <= k < sh.len() implies sh[k] < t.len() - i by {
        assert(s.contains(s[k]));
    }
    lemma_index_seq_len(sh, t.len() - i);
}

/// The listing from the root holds every node exactly once.
pub proof fn lemma_root_covers(t: TreeView)
    requires
        t.wf(),
    ensures
        forall|x: usize| x < t.len() ==> #[trigger] t.dfs_order(0).contains(x),
        t.dfs_order(0).len() == t.len(),
        t.dfs_order(0).no_duplicates(),
{
    assert forall|x: usize| x < t.len() implies #[trigger] t.dfs_order(0).contains(x) by {
        lemma_root_covers_one(t, x as int);
    }
    lemma_dfs_props(t, 0);
    assert forall|k: int| 0 <= k < t.dfs_order(0).len() implies t.dfs_order(0)[k] < t.len() by {
        assert(t.dfs_order(0).contains(t.dfs_order(0)[k]));
    }
    lemma_index_seq_len(t.dfs_order(0), t.len() as int);
}

proof fn lemma_root_covers_one(t: TreeView, x: int)
    requires
        t.wf(),
        0 <= x < t.len(),
    ensures
        t.dfs_order(0).contains(x as usize),
    decreases x,
{
    if x == 0 {
        lemma_dfs_props(t, 0);
        assert(t.dfs_order(0)[0] == 0);
    } else {
        let p = t.nodes[x].parent.unwrap();
        lemma_root_covers_one(t, p as int);
        assert(t.kids(p as int).contains(x as usize));
        let j = choose|j: int| 0 <= j < t.kids(p as int).len() && t.kids(p as int)[j] == x as usize;
        lemma_kid_in_dfs(t, p as int, j);
        lemma_dfs_trans(t, x as usize, p, 0);
    }
}

/// The listing of the subtree at `i` holds exactly `i` and its descendants:
/// the nodes whose parent chain passes through `i`.
pub proof fn lemma_dfs_is_descendants(t: TreeView, i: int)
    requires
        t.wf(),
        0 <= i < t.len(),
    ensures
        forall|x: usize| #[trigger] t.dfs_order(i).contains(x) <==> (x < t.len() && t.anc(x as int, i)),
{
    lemma_dfs_props(t, i);
    assert forall|x: usize| x < t.len() && t.anc(x as int, i) implies #[trigger] t.dfs_order(i).contains(x) by {
        lemma_descendant_listed(t, i, x as int);
    }
}

proof fn lemma_descendant_listed(t: TreeView, i: int, x: int)
    requires
        t.wf(),
        0 <= i < t.len(),
        0 <= x < t.len(),
        t.anc(x, i),
    ensures
        t.dfs_order(i).contains(x as usize),
    decreases x,
{
    if x == i {
        lemma_dfs_props(t, i);
        assert(t.dfs_order(i)[0] == i);
    } else {
        let p = t.nodes[x].parent.unwrap();
        assert(t.anc(p as int, i));
        lemma_descendant_listed(t, i, p as int);
        assert(t.kids(p as int).contains(x as usize));
        let j = choose|j: int| 0 <= j < t.kids(p as int).len() && t.kids(p as int)[j] == x as usize;
        lemma_kid_in_dfs(t, p as int, j);
        lemma_dfs_trans(t, x as usize, p, i);
    }
}

/// A node's subtree is no larger than the subtree of any node above it.
pub proof fn lemma_sub_size(t: TreeView, y: usize, z: int)
    requires
        t.wf(),
        0 <= z < t.len(),
        t.dfs_order(z).contains(y),
    ensures
        t.subtree_size(y as int) <= t.subtree_size(z),
{
    lemma_dfs_props(t, z);
    lemma_dfs_props(t, y as int);
    let sz = t.dfs_order(z);
    let sy = t.dfs_order(y as int);
    assert forall|x: usize| sy.contains(x) implies sz.contains(x) by {
        lemma_dfs_trans(t, x, y, z);
    }
    let syi = sy.map_values(|x: usize| x as int);
    let szi = sz.map_values(|x: usize| x as int);
    let a = syi.to_set();
    let b = szi.to_set();
    lemma_no_dup_int(sy);
    lemma_no_dup_int(sz);
    assert(a.subset_of(b)) by {
        assert forall|v: int| a.contains(v) implies b.contains(v) by {
            assert(syi.contains(v));
            let k = choose|k: int| 0 <= k < syi.len() && syi[k] == v;
            assert(sy.contains(sy[k]));
            assert(sz.contains(sy[k]));
            let q = choose|q: int| 0 <= q < sz.len() && sz[q] == sy[k];
            assert(szi[q] == v);
        }
    }
    vstd::set_lib::lemma_len_subset(a, b);
}

proof fn lemma_no_dup_int(s: Seq<usize>)
    requires
        s.no_duplicates(),
    ensures
        s.map_values(|x: usize| x as int).to_set().len() == s.len(),
        s.map_values(|x: usize| x as int).to_set().finite(),
{
    let si = s.map_values(|x: usize| x as int);
    assert forall|a: int, b: int| 0 <= a < si.len() && 0 <= b < si.len() && a != b implies si[a] != si[b] by {
        assert(s[a] != s[b]);
    }
    si.unique_seq_to_set();
}

/// The length of a stack listing is the sum of the subtree sizes.
pub proof fn lemma_flat_len(t: TreeView, st: Seq<usize>)
    ensures
        t.flat(st).len() == sum_sizes(t, st),
    decreases st.len(),
{
    if st.len() > 0 {
        lemma_flat_len(t, st.drop_last());
    }
}

/// Sum of the subtree sizes of a stack of nodes.
pub open spec fn sum_sizes(t: TreeView, st: Seq<usize>) -> nat
    decreases st.len(),
{
    if st.len() == 0 {
        0
    } else {
        sum_sizes(t, st.drop_last()) + t.subtree_size(st.last() as int)
    }
}

/// The subtree size is one more than the sizes of the children's subtrees.
pub proof fn lemma_size_unfold(t: TreeView, i: int)
    requires
        t.wf(),
        0 <= i < t.len(),
    ensures
        t.subtree_size(i) == 1 + sum_sizes(t, t.kids(i)),
{
    lemma_dfs_unfold(t, i);
    lemma_flat_len(t, t.kids(i));
}

/// In a subtree listing every child comes after its parent.
pub proof fn lemma_child_after(t: TreeView, r: int, q: int, j: int)
    requires
        t.wf(),
        0 <= r < t.len(),
        0 <= q < t.dfs_order(r).len(),
        0 <= j < t.kids(t.dfs_order(r)[q] as int).len(),
    ensures
        exists|q2: int| q < q2 < t.dfs_order(r).len() && t.dfs_order(r)[q2] == t.kids(t.dfs_order(r)[q] as int)[j],
    decreases t.len() - r, t.kids(r).len() + 1,
{
    lemma_dfs_unfold(t, r);
    lemma_dfs_props(t, r);
    let d = t.dfs_order(r);
    let f = t.flat(t.kids(r));
    if q == 0 {
        lemma_kid_in_dfs(t, r, j);
        let c = t.kids(r)[j];
        assert(r < c);
        let q2 = choose|q2: int| 0 <= q2 < d.len() && d[q2] == c;
        assert(q2 != 0);
    } else {
        assert(d[q] == f[q - 1]);
        assert forall|k: int| 0 <= k < t.kids(r).len() implies r < #[trigger] t.kids(r)[k] < t.len() by {}
        lemma_child_after_flat(t, r, t.kids(r), q - 1, j);
        let q3 = choose|q3: int| q - 1 < q3 < f.len() && #[trigger] f[q3] == t.kids(f[q - 1] as int)[j];
        assert(d[q3 + 1] == f[q3]);
    }
}

proof fn lemma_child_after_flat(t: TreeView, b: int, st: Seq<usize>, q: int, j: int)
    requires
        t.wf(),
        0 <= b,
        forall|k: int| 0 <= k < st.len() ==> b < #[trigger] st[k] < t.len(),
        0 <= q < t.flat(st).len(),
        0 <= j < t.kids(t.flat(st)[q] as int).len(),
    ensures
        exists|q2: int| q < q2 < t.flat(st).len() && t.flat(st)[q2] == t.kids(t.flat(st)[q] as int)[j],
    decreases t.len() - b, st.len(),
{
    let a = t.dfs_order(st.last() as int);
    let rest = t.flat(st.drop_last());
    let f = t.flat(st);
    assert(f == a + rest);
    assert(b < st[st.len() - 1] < t.len());
    if q < a.len() {
        assert(f[q] == a[q]);
        lemma_child_after(t, st.last() as int, q, j);
        let q2 = choose|q2: int| q < q2 < a.len() && #[trigger] a[q2] == t.kids(a[q] as int)[j];
        assert(f[q2] == a[q2]);
    } else {
        assert(f[q] == rest[q - a.len()]);
        assert forall|k: int| 0 <= k < st.drop_last().len() implies b < #[trigger] st.drop_last()[k] < t.len() by {
            assert(st.drop_last()[k] == st[k]);
        }
        lemma_child_after_flat(t, b, st.drop_last(), q - a.len(), j);
        let qq = q - a.len();
        let q2 = choose|q2: int| qq < q2 < rest.len() && #[trigger] rest[q2] == t.kids(rest[qq] as int)[j];
        assert(f[q2 + a.len()] == rest[q2]);
    }
}

/// Sum of subtree sizes of a prefix, one child more.
pub proof fn lemma_sum_sizes_prefix(t: TreeView, ks: Seq<usize>, j: int)
    requires
        0 < j <= ks.len(),
    ensures
        sum_sizes(t, ks.take(j)) == sum_sizes(t, ks.take(j - 1)) + t.subtree_size(ks[j - 1] as int),
        sum_sizes(t, ks.take(j - 1)) <= sum_sizes(t, ks),
        sum_sizes(t, ks.take(j)) <= sum_sizes(t, ks),
{
    assert(ks.take(j).drop_last() == ks.take(j - 1));
    lemma_sum_sizes_mono(t, ks, j - 1);
    lemma_sum_sizes_mono(t, ks, j);
}

proof fn lemma_sum_sizes_mono(t: TreeView, ks: Seq<usize>, j: int)
    requires
        0 <= j <= ks.len(),
    ensures
        sum_sizes(t, ks.take(j)) <= sum_sizes(t, ks),
    decreases ks.len() - j,
{
    if j < ks.len() {
        lemma_sum_sizes_mono(t, ks, j + 1);
        assert(ks.take(j + 1).drop_last() == ks.take(j));
    } else {
        assert(ks.take(j) == ks);
    }
}

} // verus!
