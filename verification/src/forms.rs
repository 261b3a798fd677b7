//! Canonical forms of trees built from a root and child trees: the form of such
//! a tree is determined by the root label and the forms of the children, in any
//! order.

use vstd::prelude::*;
use vstd::relations::total_ordering;
use crate::canonical::{canon, decimal, join, kid_canons, sorted_text, text_order, tree_canon};
use crate::embed_spec::{lemma_sum_remove, seq_sum};
use crate::generator::labels_within;
use crate::order::{lemma_text_le_antisym, lemma_text_le_refl, lemma_text_le_total, lemma_text_le_trans, lemma_text_order, text_le};
use crate::subtree::{lemma_dfs_len, lemma_root_covers, lemma_size_unfold, sum_sizes};
use crate::tree::{build_view, lemma_graft_wf, single_view, TreeView};

verus! {

/// The canonical form of a root labelled `l` above children whose forms are `fs`.
pub open spec fn form_of(l: u32, fs: Seq<Seq<char>>) -> Seq<char> {
    if fs.len() == 0 {
        decimal(l as nat)
    } else {
        decimal(l as nat) + seq!['('] + join(fs.sort_by(text_order())) + seq![')']
    }
}

/// The canonical forms of the trees `ts`, in order.
pub open spec fn forms_of(ts: Seq<TreeView>) -> Seq<Seq<char>> {
    ts.map_values(|t: TreeView| tree_canon(t))
}

/// The canonical form of a node is the form of its label above its children's forms.
pub proof fn lemma_canon_unfold(t: TreeView, i: int)
    requires
        0 <= i < t.len(),
    ensures
        canon(t, i) == form_of(t.label(i), kid_canons(t, i, t.kids(i).len() as int)),
        kid_canons(t, i, t.kids(i).len() as int).len() == t.kids(i).len(),
{
    lemma_kid_canons_len(t, i, t.kids(i).len() as int);
}

proof fn lemma_kid_canons_len(t: TreeView, i: int, k: int)
    requires
        0 <= i < t.len(),
        0 <= k <= t.kids(i).len(),
    ensures
        kid_canons(t, i, k).len() == k,
    decreases k,
{
    if k > 0 {
        lemma_kid_canons_len(t, i, k - 1);
    }
}

/// The `j`-th entry of the children's forms is the form of the `j`-th child.
pub proof fn lemma_kid_canons_index(t: TreeView, i: int, k: int, j: int)
    requires
        t.wf(),
        0 <= i < t.len(),
        0 <= j < k <= t.kids(i).len(),
    ensures
        kid_canons(t, i, k)[j] == canon(t, t.kids(i)[j] as int),
    decreases k,
{
    lemma_kid_canons_len(t, i, k - 1);
    if j < k - 1 {
        lemma_kid_canons_index(t, i, k - 1, j);
    }
}

/// The form of a node depends only on the nodes from it onwards.
proof fn lemma_canon_frame(t1: TreeView, t2: TreeView, i: int)
    requires
        t1.wf(),
        t1.len() <= t2.len(),
        0 <= i < t1.len(),
        forall|c: int| i <= c < t1.len() ==> #[trigger] t2.nodes[c] == t1.nodes[c],
    ensures
        canon(t2, i) == canon(t1, i),
    decreases t1.len() - i, t1.kids(i).len() + 1,
{
    assert(t2.nodes[i] == t1.nodes[i]);
    lemma_kids_frame(t1, t2, i, t1.kids(i).len() as int);
}

proof fn lemma_kids_frame(t1: TreeView, t2: TreeView, i: int, k: int)
    requires
        t1.wf(),
        t1.len() <= t2.len(),
        0 <= i < t1.len(),
        0 <= k <= t1.kids(i).len(),
        forall|c: int| i <= c < t1.len() ==> #[trigger] t2.nodes[c] == t1.nodes[c],
    ensures
        kid_canons(t2, i, k) == kid_canons(t1, i, k),
    decreases t1.len() - i, k,
{
    assert(t2.nodes[i] == t1.nodes[i]);
    if k > 0 {
        lemma_kids_frame(t1, t2, i, k - 1);
        let c = t1.kids(i)[k - 1];
        assert(i < c < t1.len());
        lemma_canon_frame(t1, t2, c as int);
    }
}

/// A tree grafted below a node keeps its form in the new arena.
proof fn lemma_canon_shift(t: TreeView, p: usize, o: TreeView, i: int)
    requires
        o.wf(),
        p < t.len(),
        t.len() + o.len() <= usize::MAX,
        0 <= i < o.len(),
    ensures
        canon(t.graft_view(p, o), t.len() + i) == canon(o, i),
    decreases o.len() - i, o.kids(i).len() + 1,
{
    let g = t.graft_view(p, o);
    assert(g.nodes[t.len() + i] == TreeView::shifted(o, i, t.len() as int, p));
    lemma_kids_shift(t, p, o, i, o.kids(i).len() as int);
}

proof fn lemma_kids_shift(t: TreeView, p: usize, o: TreeView, i: int, k: int)
    requires
        o.wf(),
        p < t.len(),
        t.len() + o.len() <= usize::MAX,
        0 <= i < o.len(),
        0 <= k <= o.kids(i).len(),
    ensures
        kid_canons(t.graft_view(p, o), t.len() + i, k) == kid_canons(o, i, k),
    decreases o.len() - i, k,
{
    let g = t.graft_view(p, o);
    let l = t.len() as int;
    assert(g.nodes[l + i] == TreeView::shifted(o, i, l, p));
    if k > 0 {
        lemma_kids_shift(t, p, o, i, k - 1);
        let c = o.kids(i)[k - 1];
        assert(i < c < o.len());
        assert(g.kids(l + i)[k - 1] == (c + l) as usize);
        lemma_canon_shift(t, p, o, c as int);
    }
}

proof fn lemma_root_kids_after_graft(b: TreeView, o: TreeView, m: int)
    requires
        b.wf(),
        o.wf(),
        b.len() + o.len() <= usize::MAX,
        0 <= m <= b.kids(0).len(),
    ensures
        kid_canons(b.graft_view(0, o), 0, m) == kid_canons(b, 0, m),
    decreases m,
{
    let g = b.graft_view(0, o);
    let l = b.len() as int;
    assert(g.kids(0) == b.kids(0).push(l as usize));
    if m > 0 {
        lemma_root_kids_after_graft(b, o, m - 1);
        let c = b.kids(0)[m - 1];
        assert(0 < c < l);
        assert(g.kids(0)[m - 1] == c);
        assert forall|x: int| c <= x < b.len() implies #[trigger] g.nodes[x] == b.nodes[x] by {}
        lemma_canon_frame(b, g, c as int);
    }
}

proof fn lemma_single_wf(l: u32)
    ensures
        single_view(l).wf(),
        single_view(l).len() == 1,
        single_view(l).label(0) == l,
        single_view(l).kids(0).len() == 0,
{
}

/// The tree built from a root label and child trees: well formed, labelled `l` at
/// the root, with one root child per child tree, the children's forms in order,
/// and the form of `l` above those forms.
pub proof fn lemma_build_canon(l: u32, kids: Seq<TreeView>)
    requires
        forall|j: int| 0 <= j < kids.len() ==> (#[trigger] kids[j]).wf(),
        build_view(l, kids).len() <= usize::MAX,
    ensures
        build_view(l, kids).wf(),
        build_view(l, kids).len() >= 1,
        build_view(l, kids).label(0) == l,
        build_view(l, kids).kids(0).len() == kids.len(),
        kid_canons(build_view(l, kids), 0, kids.len() as int) == forms_of(kids),
        tree_canon(build_view(l, kids)) == form_of(l, forms_of(kids)),
    decreases kids.len(),
{
    if kids.len() == 0 {
        lemma_single_wf(l);
        assert(forms_of(kids) =~= Seq::<Seq<char>>::empty());
    } else {
        let front = kids.drop_last();
        let k = kids.last();
        let b = build_view(l, front);
        let g = b.graft_view(0, k);
        assert(g == build_view(l, kids));
        assert forall|j: int| 0 <= j < front.len() implies (#[trigger] front[j]).wf() by {
            assert(front[j] == kids[j]);
        }
        assert(k.wf());
        lemma_build_canon(l, front);
        lemma_graft_wf(b, 0, k);
        let n = kids.len() as int;
        assert(g.kids(0) == b.kids(0).push(b.len() as usize));
        lemma_root_kids_after_graft(b, k, n - 1);
        lemma_canon_shift(b, 0, k, 0);
        assert(canon(g, b.len() as int) == tree_canon(k));
        assert(kid_canons(g, 0, n) == kid_canons(g, 0, n - 1).push(canon(g, b.len() as int)));
        assert(forms_of(kids) =~= forms_of(front).push(tree_canon(k)));
        lemma_canon_unfold(g, 0);
    }
}

/// Trees built on one root label from children with the same forms, in whatever
/// order, have the same canonical form.
pub proof fn lemma_form_ignores_child_order(l: u32, kids1: Seq<TreeView>, kids2: Seq<TreeView>)
    requires
        forall|j: int| 0 <= j < kids1.len() ==> (#[trigger] kids1[j]).wf(),
        forall|j: int| 0 <= j < kids2.len() ==> (#[trigger] kids2[j]).wf(),
        build_view(l, kids1).len() <= usize::MAX,
        build_view(l, kids2).len() <= usize::MAX,
        forms_of(kids1).to_multiset() == forms_of(kids2).to_multiset(),
    ensures
        tree_canon(build_view(l, kids1)) == tree_canon(build_view(l, kids2)),
{
    lemma_build_canon(l, kids1);
    lemma_build_canon(l, kids2);
    lemma_sort_forms_by_multiset(forms_of(kids1), forms_of(kids2));
    vstd::seq_lib::to_multiset_len(forms_of(kids1));
    vstd::seq_lib::to_multiset_len(forms_of(kids2));
}

/// Sorting forms depends only on which forms there are.
pub proof fn lemma_sort_forms_by_multiset(a: Seq<Seq<char>>, b: Seq<Seq<char>>)
    requires
        a.to_multiset() == b.to_multiset(),
    ensures
        a.sort_by(text_order()) == b.sort_by(text_order()),
{
    lemma_text_order();
    assert(total_ordering(text_order()));
    a.lemma_sort_by_ensures(text_order());
    b.lemma_sort_by_ensures(text_order());
    vstd::seq_lib::lemma_sorted_unique(a.sort_by(text_order()), b.sort_by(text_order()), text_order());
}

/// One step of a canonical form: `s` is the form of a root labelled `l` in
/// `1..=k` above children of forms `fs` with node counts `ns`, each count at
/// least 1 and below `n`, the counts adding up to `n - 1`.
pub open spec fn form_step(s: Seq<char>, n: nat, k: u32, l: u32, fs: Seq<Seq<char>>, ns: Seq<nat>) -> bool {
    &&& 1 <= l <= k
    &&& fs.len() == ns.len()
    &&& seq_sum(ns) + 1 == n
    &&& forall|j: int| 0 <= j < ns.len() ==> 1 <= #[trigger] ns[j] < n
    &&& s == form_of(l, fs)
}

/// `s` is the canonical form of some tree of `n` nodes labelled in `1..=k`.
pub open spec fn is_form(s: Seq<char>, n: nat, k: u32) -> bool
    decreases n,
{
    exists|l: u32, fs: Seq<Seq<char>>, ns: Seq<nat>|
        #[trigger] form_step(s, n, k, l, fs, ns) && forall|j: int|
            0 <= j < ns.len() && #[trigger] ns[j] < n ==> is_form(fs[j], ns[j], k)
}

pub proof fn lemma_seq_sum_elem(s: Seq<nat>, j: int)
    requires
        0 <= j < s.len(),
    ensures
        s[j] <= seq_sum(s),
    decreases s.len(),
{
    if j < s.len() - 1 {
        lemma_seq_sum_elem(s.drop_last(), j);
    }
}

proof fn lemma_sum_sizes_seq(t: TreeView, st: Seq<usize>)
    ensures
        sum_sizes(t, st) == seq_sum(st.map_values(|c: usize| t.subtree_size(c as int))),
    decreases st.len(),
{
    if st.len() > 0 {
        lemma_sum_sizes_seq(t, st.drop_last());
        assert(st.map_values(|c: usize| t.subtree_size(c as int)).drop_last() =~= st.drop_last().map_values(
            |c: usize| t.subtree_size(c as int),
        ));
    }
}

/// The canonical form of a node is a form of its subtree's size.
pub proof fn lemma_canon_is_form(t: TreeView, i: int, k: u32)
    requires
        t.wf(),
        labels_within(t, k),
        0 <= i < t.len(),
    ensures
        is_form(canon(t, i), t.subtree_size(i), k),
    decreases t.len() - i,
{
    let kids = t.kids(i);
    let m = kids.len() as int;
    let fs = kid_canons(t, i, m);
    let ns = kids.map_values(|c: usize| t.subtree_size(c as int));
    let n = t.subtree_size(i);
    lemma_canon_unfold(t, i);
    lemma_size_unfold(t, i);
    lemma_sum_sizes_seq(t, kids);
    assert forall|j: int| 0 <= j < ns.len() implies 1 <= #[trigger] ns[j] < n by {
        let c = kids[j];
        assert(i < c < t.len());
        lemma_dfs_len(t, c as int);
        lemma_seq_sum_elem(ns, j);
    }
    assert forall|j: int| 0 <= j < ns.len() && #[trigger] ns[j] < n implies is_form(fs[j], ns[j], k) by {
        let c = kids[j];
        assert(i < c < t.len());
        lemma_kid_canons_index(t, i, m, j);
        lemma_canon_is_form(t, c as int, k);
    }
    assert(1 <= t.label(i) <= k);
    assert(form_step(canon(t, i), n, k, t.label(i), fs, ns));
}

/// The canonical form of a well-formed tree labelled in `1..=k` is a form of its size.
pub proof fn lemma_tree_canon_is_form(t: TreeView, k: u32)
    requires
        t.wf(),
        labels_within(t, k),
    ensures
        is_form(tree_canon(t), t.len(), k),
{
    lemma_root_covers(t);
    lemma_canon_is_form(t, 0, k);
}

/// Sums do not depend on the order of the terms.
pub proof fn lemma_sum_perm(a: Seq<nat>, b: Seq<nat>)
    requires
        a.to_multiset() == b.to_multiset(),
    ensures
        seq_sum(a) == seq_sum(b),
    decreases a.len(),
{
    broadcast use vstd::multiset::group_multiset_axioms;
    vstd::seq_lib::to_multiset_len(a);
    vstd::seq_lib::to_multiset_len(b);
    if a.len() > 0 {
        let x = a.last();
        vstd::seq_lib::to_multiset_contains(a, x);
        assert(a.contains(x)) by {
            assert(a[a.len() - 1] == x);
        }
        vstd::seq_lib::to_multiset_contains(b, x);
        let q = choose|q: int| 0 <= q < b.len() && b[q] == x;
        vstd::seq_lib::to_multiset_remove(b, q);
        assert(a.drop_last().push(x) == a);
        vstd::seq_lib::to_multiset_build(a.drop_last(), x);
        assert(a.drop_last().to_multiset() =~= b.remove(q).to_multiset());
        lemma_sum_perm(a.drop_last(), b.remove(q));
        lemma_sum_remove(b, q);
    }
}

/// Rearranging a sequence rearranges its image under `f`.
pub proof fn lemma_map_perm<A, B>(a: Seq<A>, b: Seq<A>, f: spec_fn(A) -> B)
    requires
        a.to_multiset() == b.to_multiset(),
    ensures
        a.map_values(f).to_multiset() == b.map_values(f).to_multiset(),
    decreases a.len(),
{
    broadcast use vstd::multiset::group_multiset_axioms;
    vstd::seq_lib::to_multiset_len(a);
    vstd::seq_lib::to_multiset_len(b);
    if a.len() == 0 {
        assert(a.map_values(f) =~= Seq::<B>::empty());
        assert(b.map_values(f) =~= Seq::<B>::empty());
    } else {
        let x = a.last();
        vstd::seq_lib::to_multiset_contains(a, x);
        assert(a.contains(x)) by {
            assert(a[a.len() - 1] == x);
        }
        vstd::seq_lib::to_multiset_contains(b, x);
        let q = choose|q: int| 0 <= q < b.len() && b[q] == x;
        vstd::seq_lib::to_multiset_remove(b, q);
        assert(a.drop_last().push(x) == a);
        vstd::seq_lib::to_multiset_build(a.drop_last(), x);
        assert(a.drop_last().to_multiset() =~= b.remove(q).to_multiset());
        lemma_map_perm(a.drop_last(), b.remove(q), f);
        assert(a.map_values(f) =~= a.drop_last().map_values(f).push(f(x)));
        vstd::seq_lib::to_multiset_build(a.drop_last().map_values(f), f(x));
        assert(b.remove(q).map_values(f) =~= b.map_values(f).remove(q));
        vstd::seq_lib::to_multiset_remove(b.map_values(f), q);
        vstd::seq_lib::to_multiset_contains(b.map_values(f), f(x));
        assert(b.map_values(f).to_multiset() =~= b.map_values(f).remove(q).to_multiset().insert(f(x)));
    }
}

/// Pairs of a form and a node count, ordered by form and then by count.
pub open spec fn pair_le(a: (Seq<char>, nat), b: (Seq<char>, nat)) -> bool {
    (text_le(a.0, b.0) && a.0 != b.0) || (a.0 == b.0 && a.1 <= b.1)
}

/// The pair order as a relation value.
pub open spec fn pair_order() -> spec_fn((Seq<char>, nat), (Seq<char>, nat)) -> bool {
    |a: (Seq<char>, nat), b: (Seq<char>, nat)| pair_le(a, b)
}

proof fn lemma_pair_order()
    ensures
        total_ordering(pair_order()),
{
    assert forall|a: (Seq<char>, nat)| #[trigger] (pair_order())(a, a) by {}
    assert forall|a: (Seq<char>, nat), b: (Seq<char>, nat)| #[trigger] (pair_order())(a, b) && #[trigger] (pair_order())(b, a)
        implies a == b by {
        if a.0 != b.0 {
            lemma_text_le_antisym(a.0, b.0);
        }
    }
    assert forall|a: (Seq<char>, nat), b: (Seq<char>, nat), c: (Seq<char>, nat)| #[trigger] (pair_order())(a, b) && #[trigger] (pair_order())(b, c)
        implies (pair_order())(a, c) by {
        if a.0 != b.0 && b.0 != c.0 {
            lemma_text_le_trans(a.0, b.0, c.0);
            if a.0 == c.0 {
                lemma_text_le_antisym(a.0, b.0);
            }
        }
    }
    assert forall|a: (Seq<char>, nat), b: (Seq<char>, nat)| #[trigger] (pair_order())(a, b) || #[trigger] (pair_order())(b, a) by {
        lemma_text_le_total(a.0, b.0);
    }
}

/// A form step can be written with the child forms in text order.
pub proof fn lemma_sorted_step(s: Seq<char>, n: nat, k: u32, l: u32, fs: Seq<Seq<char>>, ns: Seq<nat>) -> (r: (Seq<Seq<char>>, Seq<nat>))
    requires
        form_step(s, n, k, l, fs, ns),
        forall|j: int| 0 <= j < ns.len() && #[trigger] ns[j] < n ==> is_form(fs[j], ns[j], k),
    ensures
        form_step(s, n, k, l, r.0, r.1),
        forall|j: int| 0 <= j < r.1.len() ==> is_form(r.0[j], #[trigger] r.1[j], k),
        sorted_text(r.0),
{
    let p = Seq::new(fs.len(), |j: int| (fs[j], ns[j]));
    lemma_pair_order();
    p.lemma_sort_by_ensures(pair_order());
    let sp = p.sort_by(pair_order());
    let sf = sp.map_values(|x: (Seq<char>, nat)| x.0);
    let sn = sp.map_values(|x: (Seq<char>, nat)| x.1);
    vstd::seq_lib::to_multiset_len(p);
    vstd::seq_lib::to_multiset_len(sp);
    assert(p.map_values(|x: (Seq<char>, nat)| x.0) =~= fs);
    assert(p.map_values(|x: (Seq<char>, nat)| x.1) =~= ns);
    lemma_map_perm(sp, p, |x: (Seq<char>, nat)| x.0);
    lemma_map_perm(sp, p, |x: (Seq<char>, nat)| x.1);
    lemma_sum_perm(sn, ns);
    lemma_sort_forms_by_multiset(sf, fs);
    assert forall|j: int| 0 <= j < sp.len() implies p.contains(#[trigger] sp[j]) by {
        vstd::seq_lib::to_multiset_contains(sp, sp[j]);
        vstd::seq_lib::to_multiset_contains(p, sp[j]);
        assert(sp.contains(sp[j]));
    }
    assert forall|j: int| 0 <= j < sn.len() implies 1 <= #[trigger] sn[j] < n && is_form(sf[j], sn[j], k) by {
        assert(p.contains(sp[j]));
        let q = choose|q: int| 0 <= q < p.len() && p[q] == sp[j];
        assert(ns[q] == sn[j] && fs[q] == sf[j]);
        assert(1 <= ns[q] < n);
    }
    assert forall|a: int, b: int| 0 <= a < b < sf.len() implies text_le(#[trigger] sf[a], #[trigger] sf[b]) by {
        assert((pair_order())(sp[a], sp[b]));
        if sp[a].0 == sp[b].0 {
            lemma_text_le_refl(sp[a].0);
        }
    }
    (sf, sn)
}

} // verus!
