//! What it means for one labelled tree to embed into another, and the counting
//! facts that make cheap necessary conditions for it.

use vstd::prelude::*;
use crate::tree::TreeView;
use crate::subtree::{
    lemma_dfs_props, lemma_dfs_trans, lemma_dfs_unfold, lemma_kid_in_dfs, lemma_root_covers,
    lemma_dfs_contains,
};

verus! {

/// `f` sends indices below its length injectively into `0..n`.
pub open spec fn inj_into(f: Seq<int>, n: int) -> bool {
    &&& forall|i: int| 0 <= i < f.len() ==> 0 <= #[trigger] f[i] < n
    &&& forall|i: int, j: int| 0 <= i < f.len() && 0 <= j < f.len() && i != j ==> f[i] != f[j]
}

/// Node `x` of `a` maps onto node `y` of `b`: the labels are equal and the
/// children of `x` can be sent to pairwise distinct children of `y` so that each
/// child's subtree maps somewhere inside the subtree of its partner.
pub open spec fn emb_at(a: TreeView, x: int, b: TreeView, y: int) -> bool
    decreases a.len() - x,
{
    &&& 0 <= x < a.len()
    &&& 0 <= y < b.len()
    &&& a.label(x) == b.label(y)
    &&& exists|f: Seq<int>|
        #[trigger] inj_into(f, b.kids(y).len() as int) && f.len() == a.kids(x).len() && forall|i: int|
            0 <= i < f.len() ==> x < #[trigger] a.kids(x)[i] < a.len() && exists|z: usize|
                #[trigger] b.dfs_order(b.kids(y)[f[i]] as int).contains(z) && emb_at(
                    a,
                    a.kids(x)[i] as int,
                    b,
                    z as int,
                )
}

/// `f` witnesses the child assignment in `emb_at(a, x, b, y)`.
pub open spec fn kid_witness(a: TreeView, x: int, b: TreeView, y: int, f: Seq<int>) -> bool {
    &&& inj_into(f, b.kids(y).len() as int)
    &&& f.len() == a.kids(x).len()
    &&& forall|i: int|
        0 <= i < f.len() ==> x < #[trigger] a.kids(x)[i] < a.len() && below(
            a,
            a.kids(x)[i] as int,
            b,
            b.kids(y)[f[i]] as int,
        )
}

/// The assignment in `emb_at`, with its witness named.
pub proof fn lemma_emb_witness(a: TreeView, x: int, b: TreeView, y: int)
    requires
        emb_at(a, x, b, y),
    ensures
        exists|f: Seq<int>| #[trigger] kid_witness(a, x, b, y, f),
{
    assert(0 <= x < a.len());
    assert(exists|f: Seq<int>|
        #[trigger] inj_into(f, b.kids(y).len() as int) && f.len() == a.kids(x).len() && forall|i: int|
            0 <= i < f.len() ==> x < #[trigger] a.kids(x)[i] < a.len() && exists|z: usize|
                #[trigger] b.dfs_order(b.kids(y)[f[i]] as int).contains(z) && emb_at(
                    a,
                    a.kids(x)[i] as int,
                    b,
                    z as int,
                ));
    let f = choose|f: Seq<int>|
        #[trigger] inj_into(f, b.kids(y).len() as int) && f.len() == a.kids(x).len() && forall|i: int|
            0 <= i < f.len() ==> x < #[trigger] a.kids(x)[i] < a.len() && exists|z: usize|
                #[trigger] b.dfs_order(b.kids(y)[f[i]] as int).contains(z) && emb_at(
                    a,
                    a.kids(x)[i] as int,
                    b,
                    z as int,
                );
    assert forall|i: int| 0 <= i < f.len() implies x < #[trigger] a.kids(x)[i] < a.len() && below(
        a,
        a.kids(x)[i] as int,
        b,
        b.kids(y)[f[i]] as int,
    ) by {
        let z = choose|z: usize|
            #[trigger] b.dfs_order(b.kids(y)[f[i]] as int).contains(z) && emb_at(
                a,
                a.kids(x)[i] as int,
                b,
                z as int,
            );
    }
    assert(kid_witness(a, x, b, y, f));
}

/// The subtree at `c` of `a` embeds somewhere inside the subtree at `w` of `b`.
pub open spec fn below(a: TreeView, c: int, b: TreeView, w: int) -> bool {
    exists|z: usize| #[trigger] b.dfs_order(w).contains(z) && emb_at(a, c, b, z as int)
}

/// `a` embeds into `b`: the root of `a` maps onto some node of `b`.
pub open spec fn embeds_spec(a: TreeView, b: TreeView) -> bool {
    exists|y: int| 0 <= y < b.len() && #[trigger] emb_at(a, a.root as int, b, y)
}

/// `f` assigns the nodes `ks` of `a` to pairwise distinct, not yet used entries of
/// `bks`, each node's subtree embedding inside its partner's subtree.
pub open spec fn list_witness(
    a: TreeView,
    ks: Seq<usize>,
    b: TreeView,
    bks: Seq<usize>,
    used: Seq<bool>,
    f: Seq<int>,
) -> bool {
    &&& f.len() == ks.len()
    &&& forall|i: int| 0 <= i < f.len() ==> 0 <= #[trigger] f[i] < bks.len() && !used[f[i]]
    &&& forall|i: int, j: int| 0 <= i < f.len() && 0 <= j < f.len() && i != j ==> f[i] != f[j]
    &&& forall|i: int| 0 <= i < f.len() ==> #[trigger] below(a, ks[i] as int, b, bks[f[i]] as int)
}

pub open spec fn list_match(a: TreeView, ks: Seq<usize>, b: TreeView, bks: Seq<usize>, used: Seq<bool>) -> bool {
    exists|f: Seq<int>| #[trigger] list_witness(a, ks, b, bks, used, f)
}

/// Number of entries of `s` whose label satisfies `p`.
pub open spec fn count_in(t: TreeView, s: Seq<usize>, p: spec_fn(u32) -> bool) -> nat
    decreases s.len(),
{
    if s.len() == 0 {
        0
    } else {
        count_in(t, s.drop_last(), p) + if p(t.label(s.last() as int)) {
            1nat
        } else {
            0nat
        }
    }
}

pub open spec fn seq_sum(s: Seq<nat>) -> nat
    decreases s.len(),
{
    if s.len() == 0 {
        0
    } else {
        seq_sum(s.drop_last()) + s.last()
    }
}

/// Counts of the subtrees of a stack of nodes.
pub open spec fn subtree_counts(t: TreeView, st: Seq<usize>, p: spec_fn(u32) -> bool) -> Seq<nat> {
    st.map_values(|c: usize| count_in(t, t.dfs_order(c as int), p))
}

pub proof fn lemma_count_concat(t: TreeView, s1: Seq<usize>, s2: Seq<usize>, p: spec_fn(u32) -> bool)
    ensures
        count_in(t, s1 + s2, p) == count_in(t, s1, p) + count_in(t, s2, p),
    decreases s2.len(),
{
    if s2.len() == 0 {
        assert(s1 + s2 == s1);
    } else {
        assert((s1 + s2).drop_last() == s1 + s2.drop_last());
        assert((s1 + s2).last() == s2.last());
        lemma_count_concat(t, s1, s2.drop_last(), p);
    }
}

pub proof fn lemma_count_remove(t: TreeView, s: Seq<usize>, q: int, p: spec_fn(u32) -> bool)
    requires
        0 <= q < s.len(),
    ensures
        count_in(t, s, p) == count_in(t, s.remove(q), p) + if p(t.label(s[q] as int)) {
            1nat
        } else {
            0nat
        },
{
    assert(s =~= s.take(q) + seq![s[q]] + s.skip(q + 1));
    assert(s.remove(q) =~= s.take(q) + s.skip(q + 1));
    lemma_count_concat(t, s.take(q) + seq![s[q]], s.skip(q + 1), p);
    lemma_count_concat(t, s.take(q), seq![s[q]], p);
    lemma_count_concat(t, s.take(q), s.skip(q + 1), p);
    assert(seq![s[q]].drop_last() =~= Seq::<usize>::empty());
    assert(count_in(t, seq![s[q]], p) == count_in(t, Seq::<usize>::empty(), p) + if p(t.label(s[q] as int)) {
        1nat
    } else {
        0nat
    });
}

/// Counting over a duplicate-free part of a duplicate-free sequence gives less.
pub proof fn lemma_count_subset(t: TreeView, s1: Seq<usize>, s2: Seq<usize>, p: spec_fn(u32) -> bool)
    requires
        s1.no_duplicates(),
        s2.no_duplicates(),
        forall|x: usize| s1.contains(x) ==> s2.contains(x),
    ensures
        count_in(t, s1, p) <= count_in(t, s2, p),
    decreases s1.len(),
{
    if s1.len() > 0 {
        let x = s1.last();
        assert(s1.contains(x));
        let q = choose|q: int| 0 <= q < s2.len() && s2[q] == x;
        let s2r = s2.remove(q);
        let s1r = s1.drop_last();
        assert forall|y: usize| s1r.contains(y) implies s2r.contains(y) by {
            let k = choose|k: int| 0 <= k < s1r.len() && s1r[k] == y;
            assert(s1[k] == y);
            assert(y != x);
            assert(s1.contains(y));
            let k2 = choose|k2: int| 0 <= k2 < s2.len() && s2[k2] == y;
            assert(k2 != q);
            if k2 < q {
                assert(s2r[k2] == y);
            } else {
                assert(s2r[k2 - 1] == y);
            }
        }
        assert(s2r.no_duplicates()) by {
            assert forall|i: int, j: int| 0 <= i < s2r.len() && 0 <= j < s2r.len() && i != j
                implies s2r[i] != s2r[j] by {
                let ii = if i < q { i } else { i + 1 };
                let jj = if j < q { j } else { j + 1 };
                assert(s2r[i] == s2[ii]);
                assert(s2r[j] == s2[jj]);
            }
        }
        lemma_count_subset(t, s1r, s2r, p);
        lemma_count_remove(t, s2, q, p);
    }
}

/// Counting with an always-true predicate gives the length.
pub proof fn lemma_count_all(t: TreeView, s: Seq<usize>)
    ensures
        count_in(t, s, |l: u32| true) == s.len(),
    decreases s.len(),
{
    if s.len() > 0 {
        lemma_count_all(t, s.drop_last());
    }
}

proof fn lemma_count_flat(t: TreeView, st: Seq<usize>, p: spec_fn(u32) -> bool)
    ensures
        count_in(t, t.flat(st), p) == seq_sum(subtree_counts(t, st, p)),
    decreases st.len(),
{
    if st.len() > 0 {
        lemma_count_flat(t, st.drop_last(), p);
        lemma_count_concat(t, t.dfs_order(st.last() as int), t.flat(st.drop_last()), p);
        assert(subtree_counts(t, st, p).drop_last() =~= subtree_counts(t, st.drop_last(), p));
    }
}

/// The count in a subtree: the root's contribution plus the counts of the children's subtrees.
pub proof fn lemma_count_unfold(t: TreeView, i: int, p: spec_fn(u32) -> bool)
    requires
        t.wf(),
        0 <= i < t.len(),
    ensures
        count_in(t, t.dfs_order(i), p) == (if p(t.label(i)) {
            1nat
        } else {
            0nat
        }) + seq_sum(subtree_counts(t, t.kids(i), p)),
{
    lemma_dfs_unfold(t, i);
    lemma_count_concat(t, seq![i as usize], t.flat(t.kids(i)), p);
    lemma_count_flat(t, t.kids(i), p);
    let one = seq![i as usize];
    assert(one.drop_last() =~= Seq::<usize>::empty());
    assert(one.last() as int == i);
    assert(count_in(t, one, p) == count_in(t, Seq::<usize>::empty(), p) + if p(t.label(i)) {
        1nat
    } else {
        0nat
    });
}

/// Pointwise smaller terms give a smaller sum.
pub proof fn lemma_sum_mono(s1: Seq<nat>, s2: Seq<nat>)
    requires
        s1.len() == s2.len(),
        forall|i: int| 0 <= i < s1.len() ==> s1[i] <= s2[i],
    ensures
        seq_sum(s1) <= seq_sum(s2),
    decreases s1.len(),
{
    if s1.len() > 0 {
        lemma_sum_mono(s1.drop_last(), s2.drop_last());
    }
}

pub proof fn lemma_sum_remove(s: Seq<nat>, q: int)
    requires
        0 <= q < s.len(),
    ensures
        seq_sum(s) == seq_sum(s.remove(q)) + s[q],
    decreases s.len(),
{
    if q == s.len() - 1 {
        assert(s.remove(q) == s.drop_last());
    } else {
        lemma_sum_remove(s.drop_last(), q);
        assert(s.remove(q).drop_last() == s.drop_last().remove(q));
        assert(s.remove(q).last() == s.last());
    }
}

/// Summing the weights of an injective selection gives at most the total.
pub proof fn lemma_sum_injective(w: Seq<nat>, f: Seq<int>)
    requires
        forall|i: int| 0 <= i < f.len() ==> 0 <= #[trigger] f[i] < w.len(),
        forall|i: int, j: int| 0 <= i < f.len() && 0 <= j < f.len() && i != j ==> f[i] != f[j],
    ensures
        seq_sum(f.map_values(|k: int| w[k])) <= seq_sum(w),
    decreases w.len(),
{
    let sel = f.map_values(|k: int| w[k]);
    if w.len() == 0 {
        if f.len() > 0 {
            assert(0 <= f[0] < w.len());
        }
        assert(sel =~= Seq::<nat>::empty());
    } else {
        let last = w.len() - 1;
        let wd = w.drop_last();
        if exists|i: int| 0 <= i < f.len() && f[i] == last {
            let i = choose|i: int| 0 <= i < f.len() && f[i] == last;
            let fr = f.remove(i);
            assert forall|k: int| 0 <= k < fr.len() implies 0 <= #[trigger] fr[k] < wd.len() by {
                let kk = if k < i { k } else { k + 1 };
                assert(fr[k] == f[kk]);
                assert(kk != i);
            }
            assert forall|k: int, j: int| 0 <= k < fr.len() && 0 <= j < fr.len() && k != j implies fr[k] != fr[j] by {
                let kk = if k < i { k } else { k + 1 };
                let jj = if j < i { j } else { j + 1 };
                assert(fr[k] == f[kk]);
                assert(fr[j] == f[jj]);
            }
            lemma_sum_injective(wd, fr);
            lemma_sum_remove(sel, i);
            assert(sel.remove(i) =~= fr.map_values(|k: int| wd[k]));
        } else {
            assert forall|k: int| 0 <= k < f.len() implies 0 <= #[trigger] f[k] < wd.len() by {
                assert(f[k] != last);
            }
            lemma_sum_injective(wd, f);
            assert(sel =~= f.map_values(|k: int| wd[k]));
        }
    }
}

/// A parent with an embedding at least as many children as the embedded node.
pub proof fn lemma_injective_len(f: Seq<int>, n: int)
    requires
        0 <= n,
        forall|i: int| 0 <= i < f.len() ==> 0 <= #[trigger] f[i] < n,
        forall|i: int, j: int| 0 <= i < f.len() && 0 <= j < f.len() && i != j ==> f[i] != f[j],
    ensures
        f.len() <= n,
{
    let w = Seq::new(n as nat, |k: int| 1nat);
    lemma_sum_injective(w, f);
    let sel = f.map_values(|k: int| w[k]);
    assert forall|i: int| 0 <= i < sel.len() implies sel[i] == 1 by {
        assert(0 <= f[i] < n);
    }
    lemma_sum_ones(sel);
    lemma_sum_ones(w);
}

pub proof fn lemma_sum_ones(s: Seq<nat>)
    requires
        forall|i: int| 0 <= i < s.len() ==> s[i] == 1,
    ensures
        seq_sum(s) == s.len(),
    decreases s.len(),
{
    if s.len() > 0 {
        lemma_sum_ones(s.drop_last());
    }
}

/// An embedding never maps a subtree onto one with fewer nodes whose label
/// satisfies `p`.
pub proof fn lemma_emb_count(a: TreeView, x: int, b: TreeView, y: int, p: spec_fn(u32) -> bool)
    requires
        a.wf(),
        b.wf(),
        emb_at(a, x, b, y),
    ensures
        count_in(a, a.dfs_order(x), p) <= count_in(b, b.dfs_order(y), p),
    decreases a.len() - x,
{
    lemma_emb_witness(a, x, b, y);
    let f = choose|f: Seq<int>| #[trigger] kid_witness(a, x, b, y, f);
    let ak = a.kids(x);
    let bk = b.kids(y);
    let ca = subtree_counts(a, ak, p);
    let cb = subtree_counts(b, bk, p);
    let sel = f.map_values(|k: int| cb[k]);
    assert forall|i: int| 0 <= i < ca.len() implies ca[i] <= sel[i] by {
        assert(x < ak[i] < a.len());
        assert(below(a, ak[i] as int, b, bk[f[i]] as int));
        let z = choose|z: usize| #[trigger] b.dfs_order(bk[f[i]] as int).contains(z) && emb_at(a, ak[i] as int, b, z as int);
        lemma_emb_count(a, ak[i] as int, b, z as int, p);
        let w = bk[f[i]];
        lemma_kid_in_dfs(b, y, f[i]);
        lemma_dfs_props(b, w as int);
        lemma_dfs_props(b, z as int);
        assert(z < b.len());
        assert forall|v: usize| b.dfs_order(z as int).contains(v) implies b.dfs_order(w as int).contains(v) by {
            lemma_dfs_trans(b, v, z, w as int);
        }
        lemma_count_subset(b, b.dfs_order(z as int), b.dfs_order(w as int), p);
    }
    lemma_sum_mono(ca, sel);
    lemma_sum_injective(cb, f);
    lemma_count_unfold(a, x, p);
    lemma_count_unfold(b, y, p);
}

/// An embedding never maps a subtree onto a smaller one.
pub proof fn lemma_emb_size(a: TreeView, x: int, b: TreeView, y: int)
    requires
        a.wf(),
        b.wf(),
        emb_at(a, x, b, y),
    ensures
        a.subtree_size(x) <= b.subtree_size(y),
{
    lemma_emb_count(a, x, b, y, |l: u32| true);
    lemma_count_all(a, a.dfs_order(x));
    lemma_count_all(b, b.dfs_order(y));
}

/// Every node of an embedded subtree has a partner with the same label and at
/// least as many children in the target subtree.
pub proof fn lemma_emb_degree(a: TreeView, x: int, b: TreeView, y: int, u: usize)
    requires
        a.wf(),
        b.wf(),
        emb_at(a, x, b, y),
        a.dfs_order(x).contains(u),
    ensures
        exists|v: usize| #[trigger] b.dfs_order(y).contains(v) && b.label(v as int) == a.label(u as int)
            && b.kids(v as int).len() >= a.kids(u as int).len(),
    decreases a.len() - x,
{
    lemma_emb_witness(a, x, b, y);
    let f = choose|f: Seq<int>| #[trigger] kid_witness(a, x, b, y, f);
    lemma_dfs_props(b, y);
    if u == x {
        lemma_injective_len(f, b.kids(y).len() as int);
        assert(b.dfs_order(y).contains(y as usize));
    } else {
        lemma_dfs_contains(a, x, u);
        let i = choose|i: int| 0 <= i < a.kids(x).len() && #[trigger] a.dfs_order(a.kids(x)[i] as int).contains(u);
        let c = a.kids(x)[i];
        assert(x < c < a.len());
        let w = b.kids(y)[f[i]];
        assert(below(a, c as int, b, w as int));
        let z = choose|z: usize| #[trigger] b.dfs_order(w as int).contains(z) && emb_at(a, c as int, b, z as int);
        lemma_emb_degree(a, c as int, b, z as int, u);
        let v = choose|v: usize| #[trigger] b.dfs_order(z as int).contains(v) && b.label(v as int) == a.label(u as int)
            && b.kids(v as int).len() >= a.kids(u as int).len();
        lemma_kid_in_dfs(b, y, f[i]);
        lemma_dfs_props(b, w as int);
        lemma_dfs_trans(b, v, z, w as int);
        lemma_dfs_trans(b, v, w, y);
    }
}

/// The count over the whole arena equals the count over the subtree of the root.
pub proof fn lemma_count_root(t: TreeView, p: spec_fn(u32) -> bool)
    requires
        t.wf(),
    ensures
        count_in(t, t.dfs_order(0), p) == count_in(t, Seq::new(t.len(), |i: int| i as usize), p),
{
    lemma_root_covers(t);
    let all = Seq::new(t.len(), |i: int| i as usize);
    assert(all.no_duplicates());
    assert forall|x: usize| t.dfs_order(0).contains(x) implies all.contains(x) by {
        lemma_dfs_props(t, 0);
        assert(all[x as int] == x);
    }
    assert forall|x: usize| all.contains(x) implies t.dfs_order(0).contains(x) by {}
    lemma_count_subset(t, t.dfs_order(0), all, p);
    lemma_count_subset(t, all, t.dfs_order(0), p);
}

/// `emb_at` restated over the assignment of children as lists.
pub proof fn lemma_emb_list(a: TreeView, x: int, b: TreeView, y: int)
    requires
        a.wf(),
        b.wf(),
        0 <= x < a.len(),
        0 <= y < b.len(),
    ensures
        emb_at(a, x, b, y) == (a.label(x) == b.label(y) && list_match(
            a,
            a.kids(x),
            b,
            b.kids(y),
            Seq::new(b.kids(y).len(), |k: int| false),
        )),
{
    let used = Seq::new(b.kids(y).len(), |k: int| false);
    if emb_at(a, x, b, y) {
        lemma_emb_witness(a, x, b, y);
        let f = choose|f: Seq<int>| #[trigger] kid_witness(a, x, b, y, f);
        assert(list_witness(a, a.kids(x), b, b.kids(y), used, f));
    }
    if a.label(x) == b.label(y) && list_match(a, a.kids(x), b, b.kids(y), used) {
        let f = choose|f: Seq<int>| #[trigger] list_witness(a, a.kids(x), b, b.kids(y), used, f);
        assert forall|i: int| 0 <= i < f.len() implies x < #[trigger] a.kids(x)[i] < a.len() && exists|z: usize|
            #[trigger] b.dfs_order(b.kids(y)[f[i]] as int).contains(z) && emb_at(
                a,
                a.kids(x)[i] as int,
                b,
                z as int,
            ) by {
            assert(below(a, a.kids(x)[i] as int, b, b.kids(y)[f[i]] as int));
        }
        assert(inj_into(f, b.kids(y).len() as int));
    }
}

/// Reordering the nodes to be assigned does not change whether an assignment exists.
pub proof fn lemma_list_match_perm(a: TreeView, l: Seq<usize>, q: Seq<usize>, b: TreeView, bks: Seq<usize>, used: Seq<bool>)
    requires
        l.no_duplicates(),
        q.no_duplicates(),
        l.len() == q.len(),
        forall|v: usize| l.contains(v) <==> q.contains(v),
    ensures
        list_match(a, l, b, bks, used) == list_match(a, q, b, bks, used),
{
    if list_match(a, l, b, bks, used) {
        lemma_list_match_perm_one(a, l, q, b, bks, used);
    }
    if list_match(a, q, b, bks, used) {
        lemma_list_match_perm_one(a, q, l, b, bks, used);
    }
}

proof fn lemma_list_match_perm_one(a: TreeView, l: Seq<usize>, q: Seq<usize>, b: TreeView, bks: Seq<usize>, used: Seq<bool>)
    requires
        l.no_duplicates(),
        q.no_duplicates(),
        l.len() == q.len(),
        forall|v: usize| l.contains(v) <==> q.contains(v),
        list_match(a, l, b, bks, used),
    ensures
        list_match(a, q, b, bks, used),
{
    let f = choose|f: Seq<int>| #[trigger] list_witness(a, l, b, bks, used, f);
    let pos = Seq::new(q.len(), |i: int| choose|j: int| 0 <= j < l.len() && l[j] == q[i]);
    assert forall|i: int| 0 <= i < q.len() implies 0 <= #[trigger] pos[i] < l.len() && l[pos[i]] == q[i] by {
        assert(q.contains(q[i]));
        assert(l.contains(q[i]));
    }
    let g = Seq::new(q.len(), |i: int| f[pos[i]]);
    assert forall|i: int| 0 <= i < g.len() implies 0 <= #[trigger] g[i] < bks.len() && !used[g[i]] by {
        assert(0 <= pos[i] < l.len());
        assert(0 <= f[pos[i]] < bks.len() && !used[f[pos[i]]]);
    }
    assert forall|i: int, j: int| 0 <= i < g.len() && 0 <= j < g.len() && i != j implies g[i] != g[j] by {
        assert(0 <= pos[i] < l.len() && l[pos[i]] == q[i]);
        assert(0 <= pos[j] < l.len() && l[pos[j]] == q[j]);
        assert(q[i] != q[j]);
    }
    assert forall|i: int| 0 <= i < g.len() implies #[trigger] below(a, q[i] as int, b, bks[g[i]] as int) by {
        assert(0 <= pos[i] < l.len() && l[pos[i]] == q[i]);
        assert(below(a, l[pos[i]] as int, b, bks[f[pos[i]]] as int));
    }
    assert(list_witness(a, q, b, bks, used, g));
}

/// Assigning the first node to some free partner and the rest to the others.
pub proof fn lemma_list_match_step(a: TreeView, ks: Seq<usize>, b: TreeView, bks: Seq<usize>, used: Seq<bool>)
    requires
        ks.len() > 0,
        used.len() == bks.len(),
    ensures
        list_match(a, ks, b, bks, used) == exists|i: int|
            0 <= i < bks.len() && !used[i] && #[trigger] below(a, ks[0] as int, b, bks[i] as int)
                && list_match(a, ks.drop_first(), b, bks, used.update(i, true)),
{
    if list_match(a, ks, b, bks, used) {
        let f = choose|f: Seq<int>| #[trigger] list_witness(a, ks, b, bks, used, f);
        let i = f[0];
        let g = f.drop_first();
        let u2 = used.update(i, true);
        assert forall|k: int| 0 <= k < g.len() implies 0 <= #[trigger] g[k] < bks.len() && !u2[g[k]] by {
            assert(g[k] == f[k + 1]);
            assert(f[k + 1] != f[0]);
        }
        assert forall|k: int| 0 <= k < g.len() implies #[trigger] below(a, ks.drop_first()[k] as int, b, bks[g[k]] as int) by {
            assert(g[k] == f[k + 1]);
            assert(below(a, ks[k + 1] as int, b, bks[f[k + 1]] as int));
        }
        assert(list_witness(a, ks.drop_first(), b, bks, u2, g));
        assert(below(a, ks[0] as int, b, bks[i] as int));
    }
    if exists|i: int|
        0 <= i < bks.len() && !used[i] && #[trigger] below(a, ks[0] as int, b, bks[i] as int)
            && list_match(a, ks.drop_first(), b, bks, used.update(i, true)) {
        let i = choose|i: int|
            0 <= i < bks.len() && !used[i] && #[trigger] below(a, ks[0] as int, b, bks[i] as int)
                && list_match(a, ks.drop_first(), b, bks, used.update(i, true));
        let u2 = used.update(i, true);
        let g = choose|g: Seq<int>| #[trigger] list_witness(a, ks.drop_first(), b, bks, u2, g);
        let f = seq![i].add(g);
        assert forall|k: int| 0 <= k < f.len() implies 0 <= #[trigger] f[k] < bks.len() && !used[f[k]] by {
            if k > 0 {
                assert(f[k] == g[k - 1]);
                assert(!u2[g[k - 1]]);
            }
        }
        assert forall|k: int, j: int| 0 <= k < f.len() && 0 <= j < f.len() && k != j implies f[k] != f[j] by {
            if k > 0 && j > 0 {
                assert(g[k - 1] != g[j - 1]);
            } else if k > 0 {
                assert(!u2[g[k - 1]]);
            } else {
                assert(!u2[g[j - 1]]);
            }
        }
        assert forall|k: int| 0 <= k < f.len() implies #[trigger] below(a, ks[k] as int, b, bks[f[k]] as int) by {
            if k > 0 {
                assert(below(a, ks.drop_first()[k - 1] as int, b, bks[g[k - 1]] as int));
            }
        }
        assert(list_witness(a, ks, b, bks, used, f));
    }
}

/// With nothing left to assign an assignment exists.
pub proof fn lemma_list_match_empty(a: TreeView, ks: Seq<usize>, b: TreeView, bks: Seq<usize>, used: Seq<bool>)
    requires
        ks.len() == 0,
    ensures
        list_match(a, ks, b, bks, used),
{
    assert(list_witness(a, ks, b, bks, used, Seq::<int>::empty()));
}

/// A subtree embedding somewhere below `w` is no larger than the subtree at `w`.
pub proof fn lemma_below_size(a: TreeView, c: int, b: TreeView, w: int)
    requires
        a.wf(),
        b.wf(),
        0 <= w < b.len(),
        below(a, c, b, w),
    ensures
        a.subtree_size(c) <= b.subtree_size(w),
{
    let z = choose|z: usize| #[trigger] b.dfs_order(w).contains(z) && emb_at(a, c, b, z as int);
    lemma_emb_size(a, c, b, z as int);
    crate::subtree::lemma_sub_size(b, z, w);
}

/// Every node of a well-formed tree maps onto itself.
pub proof fn lemma_emb_at_refl(t: TreeView, x: int)
    requires
        t.wf(),
        0 <= x < t.len(),
    ensures
        emb_at(t, x, t, x),
    decreases t.len() - x,
{
    let n = t.kids(x).len();
    let f = Seq::new(n, |i: int| i);
    assert forall|i: int| 0 <= i < f.len() implies x < #[trigger] t.kids(x)[i] < t.len() && exists|z: usize|
        #[trigger] t.dfs_order(t.kids(x)[f[i]] as int).contains(z) && emb_at(t, t.kids(x)[i] as int, t, z as int) by {
        let c = t.kids(x)[i];
        assert(x < c < t.len());
        lemma_emb_at_refl(t, c as int);
        assert(t.dfs_order(c as int)[0] == c);
        assert(f[i] == i);
        assert(t.dfs_order(t.kids(x)[f[i]] as int).contains(c));
        assert(emb_at(t, t.kids(x)[i] as int, t, c as int));
    }
    assert(inj_into(f, n as int));
}

/// Reflexivity: every well-formed tree embeds into itself.
pub proof fn lemma_embeds_reflexive(t: TreeView)
    requires
        t.wf(),
    ensures
        embeds_spec(t, t),
{
    lemma_emb_at_refl(t, 0);
}

/// A node mapping carries every node below its source to a node below its image.
pub proof fn lemma_emb_below(b: TreeView, u: int, c: TreeView, w: int, v: usize)
    requires
        b.wf(),
        c.wf(),
        emb_at(b, u, c, w),
        b.dfs_order(u).contains(v),
    ensures
        below(b, v as int, c, w),
    decreases b.len() - u,
{
    lemma_dfs_props(c, w);
    if v == u {
        assert(c.dfs_order(w)[0] == w);
        assert(c.dfs_order(w).contains(w as usize));
    } else {
        lemma_dfs_contains(b, u, v);
        let j = choose|j: int| 0 <= j < b.kids(u).len() && #[trigger] b.dfs_order(b.kids(u)[j] as int).contains(v);
        lemma_emb_witness(b, u, c, w);
        let f = choose|f: Seq<int>| #[trigger] kid_witness(b, u, c, w, f);
        let uc = b.kids(u)[j];
        let wc = c.kids(w)[f[j]];
        assert(u < uc < b.len());
        assert(below(b, uc as int, c, wc as int));
        assert(w < wc < c.len());
        let z = choose|z: usize| #[trigger] c.dfs_order(wc as int).contains(z) && emb_at(b, uc as int, c, z as int);
        lemma_emb_below(b, uc as int, c, z as int, v);
        let w2 = choose|w2: usize| #[trigger] c.dfs_order(z as int).contains(w2) && emb_at(b, v as int, c, w2 as int);
        lemma_dfs_props(c, wc as int);
        assert(c.dfs_order(wc as int)[0] == wc);
        assert(c.dfs_order(wc as int).contains(wc));
        lemma_dfs_contains(c, w, wc);
        lemma_dfs_trans(c, z, wc, w);
        lemma_dfs_props(c, wc as int);
        lemma_dfs_trans(c, w2, z, w);
        assert(c.dfs_order(w).contains(w2) && emb_at(b, v as int, c, w2 as int));
    }
}

/// Node mappings compose.
pub proof fn lemma_emb_at_trans(a: TreeView, x: int, b: TreeView, y: int, c: TreeView, z: int)
    requires
        a.wf(),
        b.wf(),
        c.wf(),
        emb_at(a, x, b, y),
        emb_at(b, y, c, z),
    ensures
        emb_at(a, x, c, z),
    decreases a.len() - x,
{
    lemma_emb_witness(a, x, b, y);
    let f = choose|f: Seq<int>| #[trigger] kid_witness(a, x, b, y, f);
    lemma_emb_witness(b, y, c, z);
    let g = choose|g: Seq<int>| #[trigger] kid_witness(b, y, c, z, g);
    let h = Seq::new(f.len(), |i: int| g[f[i]]);
    assert forall|i: int| 0 <= i < h.len() implies x < #[trigger] a.kids(x)[i] < a.len() && exists|w: usize|
        #[trigger] c.dfs_order(c.kids(z)[h[i]] as int).contains(w) && emb_at(a, a.kids(x)[i] as int, c, w as int) by {
        let ai = a.kids(x)[i];
        let bk = b.kids(y)[f[i]];
        let ck = c.kids(z)[g[f[i]]];
        assert(0 <= f[i] < b.kids(y).len());
        assert(below(a, ai as int, b, bk as int));
        assert(below(b, bk as int, c, ck as int));
        assert(y < bk < b.len());
        let v = choose|v: usize| #[trigger] b.dfs_order(bk as int).contains(v) && emb_at(a, ai as int, b, v as int);
        let w0 = choose|w0: usize| #[trigger] c.dfs_order(ck as int).contains(w0) && emb_at(b, bk as int, c, w0 as int);
        lemma_emb_below(b, bk as int, c, w0 as int, v);
        let w1 = choose|w1: usize| #[trigger] c.dfs_order(w0 as int).contains(w1) && emb_at(b, v as int, c, w1 as int);
        lemma_dfs_props(b, bk as int);
        assert(x < ai < a.len());
        lemma_emb_at_trans(a, ai as int, b, v as int, c, w1 as int);
        assert(z < ck < c.len());
        lemma_dfs_trans(c, w1, w0, ck as int);
        assert(h[i] == g[f[i]]);
    }
    assert forall|i: int, j: int| 0 <= i < h.len() && 0 <= j < h.len() && i != j implies h[i] != h[j] by {
        assert(f[i] != f[j]);
    }
    assert(inj_into(h, c.kids(z).len() as int));
}

/// Transitivity: if `a` embeds into `b` and `b` embeds into `c`, then `a` embeds into `c`.
pub proof fn lemma_embeds_transitive(a: TreeView, b: TreeView, c: TreeView)
    requires
        a.wf(),
        b.wf(),
        c.wf(),
        embeds_spec(a, b),
        embeds_spec(b, c),
    ensures
        embeds_spec(a, c),
{
    let y = choose|y: int| 0 <= y < b.len() && #[trigger] emb_at(a, a.root as int, b, y);
    let z = choose|z: int| 0 <= z < c.len() && #[trigger] emb_at(b, b.root as int, c, z);
    crate::subtree::lemma_root_covers(b);
    assert(b.dfs_order(0).contains(y as usize));
    lemma_emb_below(b, 0, c, z, y as usize);
    let w = choose|w: usize| #[trigger] c.dfs_order(z).contains(w) && emb_at(b, y, c, w as int);
    lemma_dfs_props(c, z);
    lemma_emb_at_trans(a, 0, b, y, c, w as int);
}

} // verus!
