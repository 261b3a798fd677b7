//! Homeomorphic embedding of labelled rooted trees, by backtracking over the
//! assignment of children to distinct branches, with size and label-count pruning.

use vstd::prelude::*;
use crate::tree::{Tree, TreeView};
use crate::embed_spec::{
    below, count_in, emb_at, embeds_spec, lemma_below_size, lemma_count_root, lemma_count_subset,
    lemma_emb_count, lemma_emb_list, lemma_emb_size, lemma_injective_len, lemma_list_match_empty,
    lemma_list_match_perm, lemma_list_match_step, list_match, lemma_emb_witness, kid_witness,
};
use crate::subtree::{
    lemma_dfs_len, lemma_dfs_props, lemma_dfs_trans, lemma_dfs_unfold, lemma_flat_append,
    lemma_root_covers, lemma_sub_size, lemma_flat_contains, lemma_dfs_contains,
};

verus! {

/// Number of nodes among the first `n` nodes of `t` that carry label `l`.
pub open spec fn label_count(t: TreeView, n: int, l: u32) -> nat {
    count_in(t, Seq::new(n as nat, |i: int| i as usize), has_label(l))
}

/// The predicate "is labelled `l`".
pub open spec fn has_label(l: u32) -> spec_fn(u32) -> bool {
    |x: u32| x == l
}

/// The label check of `embeds` does not index past its table of 32 counters:
/// `b`'s labels are small, and a large label of `a` is only reached after some
/// label has already been seen more often in `a` than in `b`.
pub open spec fn label_table_fits(a: TreeView, b: TreeView) -> bool {
    &&& b.len() <= i32::MAX
    &&& forall|k: int| 0 <= k < b.len() ==> #[trigger] b.label(k) < 32
    &&& forall|k: int|
        0 <= k < a.len() && #[trigger] a.label(k) >= 32 ==> exists|l: u32|
            l < 32 && #[trigger] label_count(a, k, l) > label_count(b, b.len() as int, l)
}

/// Every node count sorted by stride: a sequence of node sizes for `subtree_size`.
pub open spec fn sizes_of(t: TreeView, s: Seq<usize>) -> bool {
    &&& s.len() == t.len()
    &&& forall|i: int| 0 <= i < t.len() ==> #[trigger] s[i] == t.subtree_size(i)
}

proof fn lemma_label_count_step(t: TreeView, n: int, l: u32)
    requires
        0 <= n < t.len() <= usize::MAX,
    ensures
        label_count(t, n + 1, l) == label_count(t, n, l) + if t.label(n) == l {
            1nat
        } else {
            0nat
        },
{
    let s = Seq::new((n + 1) as nat, |i: int| i as usize);
    assert(s.drop_last() =~= Seq::new(n as nat, |i: int| i as usize));
    assert(s.last() as int == n);
}

proof fn lemma_label_count_mono(t: TreeView, n: int, m: int, l: u32)
    requires
        0 <= n <= m <= t.len() <= usize::MAX,
    ensures
        label_count(t, n, l) <= label_count(t, m, l),
    decreases m - n,
{
    if n < m {
        lemma_label_count_mono(t, n, m - 1, l);
        lemma_label_count_step(t, m - 1, l);
    }
}

/// Returns true if every label that appears in `a` appears at least as many
/// times in `b`. Supports up to 31 distinct label values.
fn label_multiset_fits(a: &Tree, b: &Tree) -> (r: bool)
    requires
        a@.len() <= usize::MAX,
        b@.len() <= usize::MAX,
        label_table_fits(a@, b@),
    ensures
        r == forall|l: u32| l < 32 ==> #[trigger] label_count(a@, a@.len() as int, l) <= label_count(
            b@,
            b@.len() as int,
            l,
        ),
{
    let ghost ta = a@;
    let ghost tb = b@;
    let mut counts: Vec<i32> = vec![0i32; 32];
    let mut i: usize = 0;
    while i < b.nodes.len()
        invariant
            tb == b@,
            label_table_fits(ta, tb),
            i <= tb.len(),
            counts@.len() == 32,
            forall|l: u32| l < 32 ==> counts@[l as int] == #[trigger] label_count(tb, i as int, l),
            forall|l: u32| l < 32 ==> label_count(tb, i as int, l) <= i,
        decreases tb.len() - i,
    {
        let lab = b.nodes[i].label;
        assert(tb.label(i as int) == lab);
        assert(lab < 32);
        proof {
            assert forall|l: u32| l < 32 implies label_count(tb, i + 1, l) == label_count(tb, i as int, l) + if tb.label(i as int) == l {
                1nat
            } else {
                0nat
            } by {
                lemma_label_count_step(tb, i as int, l);
            }
        }
        assert(counts@[lab as int] == label_count(tb, i as int, lab));
        assert(label_count(tb, i as int, lab) <= i);
        let c = counts[lab as usize] + 1;
        let ghost prev = counts@;
        counts.set(lab as usize, c);
        proof {
            assert forall|l: u32| l < 32 implies counts@[l as int] == #[trigger] label_count(tb, i + 1, l) by {
                assert(prev[l as int] == label_count(tb, i as int, l));
            }
            assert forall|l: u32| l < 32 implies #[trigger] label_count(tb, i + 1, l) <= i + 1 by {
                assert(label_count(tb, i as int, l) <= i);
            }
        }
        i += 1;
    }
    let mut k: usize = 0;
    while k < a.nodes.len()
        invariant
            ta == a@,
            tb == b@,
            label_table_fits(ta, tb),
            i == tb.len(),
            k <= ta.len(),
            counts@.len() == 32,
            forall|l: u32| l < 32 ==> counts@[l as int] == label_count(tb, i as int, l) - #[trigger] label_count(ta, k as int, l),
            forall|l: u32| l < 32 ==> #[trigger] label_count(ta, k as int, l) <= label_count(tb, i as int, l),
        decreases ta.len() - k,
    {
        let lab = a.nodes[k].label;
        assert(ta.label(k as int) == lab);
        if lab >= 32 {
            let ghost l2 = choose|l: u32| l < 32 && #[trigger] label_count(ta, k as int, l) > label_count(tb, tb.len() as int, l);
            assert(false);
        }
        proof {
            assert forall|l: u32| l < 32 implies #[trigger] label_count(ta, k + 1, l) == label_count(ta, k as int, l) + if ta.label(k as int) == l {
                1nat
            } else {
                0nat
            } by {
                lemma_label_count_step(ta, k as int, l);
            }
        }
        assert(counts@[lab as int] == label_count(tb, i as int, lab) - label_count(ta, k as int, lab));
        let c = counts[lab as usize] - 1;
        if c < 0 {
            proof {
                assert(label_count(ta, k + 1, lab) > label_count(tb, i as int, lab));
                lemma_label_count_mono(ta, k + 1, ta.len() as int, lab);
                assert(!(label_count(ta, ta.len() as int, lab) <= label_count(tb, tb.len() as int, lab)));
            }
            return false;
        }
        let ghost prev = counts@;
        counts.set(lab as usize, c);
        proof {
            assert forall|l: u32| l < 32 implies counts@[l as int] == label_count(tb, i as int, l) - #[trigger] label_count(ta, k + 1, l) by {
                assert(prev[l as int] == label_count(tb, i as int, l) - label_count(ta, k as int, l));
            }
            assert forall|l: u32| l < 32 implies #[trigger] label_count(ta, k + 1, l) <= label_count(tb, i as int, l) by {
                assert(prev[l as int] == label_count(tb, i as int, l) - label_count(ta, k as int, l));
            }
        }
        k += 1;
    }
    true
}

/// Check if tree `a` homeomorphically embeds into tree `b`.
///
/// The embedding is defined as: there exists an injective map f: V(A) -> V(B) such that:
/// - label(v) == label(f(v)) for all v in A  (exact label match)
/// - the children of a node go to pairwise distinct branches below the image of the node
pub fn embeds(a: &Tree, b: &Tree) -> (r: bool)
    requires
        a@.wf(),
        b@.wf(),
        a@.len() > b@.len() || label_table_fits(a@, b@),
    ensures
        r == embeds_spec(a@, b@),
{
    let ghost ta = a@;
    let ghost tb = b@;
    // Pre-filter 1: a can't embed into b if a has strictly more nodes.
    if a.nodes.len() > b.nodes.len() {
        proof {
            if embeds_spec(ta, tb) {
                let y = choose|y: int| 0 <= y < tb.len() && #[trigger] emb_at(ta, ta.root as int, tb, y);
                lemma_emb_size(ta, 0, tb, y);
                lemma_root_covers(ta);
                lemma_dfs_len(tb, y);
            }
        }
        return false;
    }
    // Pre-filter 2: for each label, a must not require more occurrences than b provides.
    if !label_multiset_fits(a, b) {
        proof {
            if embeds_spec(ta, tb) {
                let l = choose|l: u32| l < 32 && !(#[trigger] label_count(ta, ta.len() as int, l) <= label_count(tb, tb.len() as int, l));
                let y = choose|y: int| 0 <= y < tb.len() && #[trigger] emb_at(ta, ta.root as int, tb, y);
                let p = has_label(l);
                lemma_emb_count(ta, 0, tb, y, p);
                lemma_count_root(ta, p);
                lemma_count_root(tb, p);
                lemma_dfs_props(tb, 0);
                lemma_dfs_props(tb, y);
                lemma_root_covers(tb);
                assert forall|v: usize| tb.dfs_order(y).contains(v) implies tb.dfs_order(0).contains(v) by {
                    assert(v < tb.len());
                }
                lemma_count_subset(tb, tb.dfs_order(y), tb.dfs_order(0), p);
            }
        }
        return false;
    }
    let a_sizes = a.all_subtree_sizes();
    let b_sizes = b.all_subtree_sizes();
    let found = can_embed_in_subtree(a, a.root, &a_sizes, b, b.root, &b_sizes);
    proof {
        lemma_root_covers(tb);
        if embeds_spec(ta, tb) {
            let y = choose|y: int| 0 <= y < tb.len() && #[trigger] emb_at(ta, ta.root as int, tb, y);
            assert(tb.dfs_order(0).contains(y as usize));
        }
        if found {
            let z = choose|z: usize| #[trigger] tb.dfs_order(0).contains(z) && emb_at(ta, 0, tb, z as int);
        }
    }
    found
}

/// Check if the subtree of `a` at `a_node` embeds into the subtree of `b` at `b_node`,
/// with `a_node` mapping to `b_node`. Uses precomputed subtree sizes.
fn embeds_with_sizes(
    a: &Tree,
    a_node: usize,
    a_sizes: &Vec<usize>,
    b: &Tree,
    b_node: usize,
    b_sizes: &Vec<usize>,
) -> (r: bool)
    requires
        a@.wf(),
        b@.wf(),
        a_node < a@.len(),
        b_node < b@.len(),
        sizes_of(a@, a_sizes@),
        sizes_of(b@, b_sizes@),
    ensures
        r == emb_at(a@, a_node as int, b@, b_node as int),
    decreases a@.len() - a_node, 3int, 0int,
{
    let ghost ta = a@;
    let ghost tb = b@;
    proof {
        lemma_emb_list(ta, a_node as int, tb, b_node as int);
    }
    if a.nodes[a_node].label != b.nodes[b_node].label {
        return false;
    }
    let a_ch = &a.nodes[a_node].children;
    assert(a_ch@ == ta.kids(a_node as int));
    if a_ch.len() == 0 {
        proof {
            lemma_list_match_empty(ta, ta.kids(a_node as int), tb, tb.kids(b_node as int), Seq::new(tb.kids(b_node as int).len(), |k: int| false));
        }
        return true; // leaf embeds once labels match
    }
    let b_ch = &b.nodes[b_node].children;
    assert(b_ch@ == tb.kids(b_node as int));
    if b_ch.len() < a_ch.len() {
        proof {
            if emb_at(ta, a_node as int, tb, b_node as int) {
                lemma_emb_witness(ta, a_node as int, tb, b_node as int);
                let f = choose|f: Seq<int>| #[trigger] kid_witness(ta, a_node as int, tb, b_node as int, f);
                lemma_injective_len(f, tb.kids(b_node as int).len() as int);
            }
        }
        return false;
    }
    // Sort a-children largest-first for fail-fast pruning during backtracking.
    let a_ch_sorted = sort_by_size_desc(a_ch, a_sizes);
    let mut used: Vec<bool> = vec![false; b_ch.len()];
    proof {
        assert(ta.kids(a_node as int).no_duplicates());
        lemma_list_match_perm(ta, ta.kids(a_node as int), a_ch_sorted@, tb, tb.kids(b_node as int), used@);
        assert(used@ =~= Seq::new(tb.kids(b_node as int).len(), |k: int| false));
        assert(a_ch_sorted@.skip(0) == a_ch_sorted@);
        assert forall|q: int| 0 <= q < a_ch_sorted@.len() implies a_node < #[trigger] a_ch_sorted@[q] < ta.len() by {
            assert(a_ch_sorted@.contains(a_ch_sorted@[q]));
            assert(a_ch@.contains(a_ch_sorted@[q]));
            let j = choose|j: int| 0 <= j < a_ch@.len() && a_ch@[j] == a_ch_sorted@[q];
            assert(a_node < ta.kids(a_node as int)[j] < ta.len());
        }
        assert forall|q: int| 0 <= q < b_ch@.len() implies #[trigger] b_ch@[q] < tb.len() by {
            assert(b_node < tb.kids(b_node as int)[q] < tb.len());
        }
    }
    match_children(a, &a_ch_sorted, 0, a_sizes, b, b_ch, b_sizes, &mut used, Ghost(a_node as int))
}

/// The children list sorted by decreasing subtree size.
pub(crate) fn sort_by_size_desc(ks: &Vec<usize>, sizes: &Vec<usize>) -> (r: Vec<usize>)
    requires
        ks@.no_duplicates(),
        forall|q: int| 0 <= q < ks@.len() ==> #[trigger] ks@[q] < sizes@.len(),
    ensures
        r@.no_duplicates(),
        r@.len() == ks@.len(),
        forall|v: usize| #[trigger] r@.contains(v) <==> ks@.contains(v),
        forall|p: int, q: int| 0 <= p < q < r@.len() ==> sizes@[r@[p] as int] >= sizes@[r@[q] as int],
{
    let mut r: Vec<usize> = Vec::with_capacity(ks.len());
    let mut j: usize = 0;
    while j < ks.len()
        invariant
            ks@.no_duplicates(),
            forall|q: int| 0 <= q < ks@.len() ==> #[trigger] ks@[q] < sizes@.len(),
            j <= ks@.len(),
            r@.no_duplicates(),
            r@.len() == j,
            forall|v: usize| #[trigger] r@.contains(v) <==> ks@.take(j as int).contains(v),
            forall|q: int| 0 <= q < r@.len() ==> #[trigger] r@[q] < sizes@.len(),
            forall|p: int, q: int| 0 <= p < q < r@.len() ==> sizes@[r@[p] as int] >= sizes@[r@[q] as int],
        decreases ks@.len() - j,
    {
        let x = ks[j];
        let sx = sizes[x];
        let mut pos: usize = 0;
        while pos < r.len() && sizes[r[pos]] >= sx
            invariant
                pos <= r@.len(),
                forall|q: int| 0 <= q < r@.len() ==> #[trigger] r@[q] < sizes@.len(),
                forall|q: int| 0 <= q < pos ==> sizes@[#[trigger] r@[q] as int] >= sx,
            decreases r@.len() - pos,
        {
            pos += 1;
        }
        let ghost before = r@;
        assert(forall|v: usize| #[trigger] before.contains(v) <==> ks@.take(j as int).contains(v));
        proof {
            assert(!before.contains(x)) by {
                if before.contains(x) {
                    assert(ks@.take(j as int).contains(x));
                    let tk = ks@.take(j as int);
                    let q = choose|q: int| 0 <= q < tk.len() && tk[q] == x;
                    assert(ks@[q] == ks@[j as int]);
                }
            }
        }
        r.insert(pos, x);
        proof {
            let ins = before.insert(pos as int, x);
            before.insert_ensures(pos as int, x);
            assert forall|q: int| 0 <= q < pos implies r@[q] == #[trigger] before[q] by {
                assert(ins[q] == before[q]);
            }
            assert forall|q: int| pos <= q < before.len() implies r@[q + 1] == #[trigger] before[q] by {
                assert(ins[q + 1] == before[q]);
            }
            assert(r@[pos as int] == x);
            assert forall|v: usize| #[trigger] r@.contains(v) <==> ks@.take(j + 1).contains(v) by {
                assert(ks@.take(j + 1) =~= ks@.take(j as int).push(x));
                if r@.contains(v) {
                    let q = choose|q: int| 0 <= q < r@.len() && r@[q] == v;
                    if q == pos {
                        assert(ks@.take(j + 1)[j as int] == x);
                    } else {
                        if q < pos {
                            assert(before[q] == v);
                        } else {
                            assert(before[q - 1] == v);
                        }
                        assert(before.contains(v));
                        assert(ks@.take(j as int).contains(v));
                        let tk = ks@.take(j as int);
                        let q2 = choose|q2: int| 0 <= q2 < tk.len() && tk[q2] == v;
                        assert(ks@.take(j + 1)[q2] == v);
                    }
                }
                if ks@.take(j + 1).contains(v) {
                    if v == x {
                        assert(r@[pos as int] == x);
                    } else {
                        assert(ks@.take(j as int).contains(v)) by {
                            let tk = ks@.take(j + 1);
                            let q = choose|q: int| 0 <= q < tk.len() && tk[q] == v;
                            assert(q < j);
                            assert(ks@.take(j as int)[q] == v);
                        }
                        assert(before.contains(v));
                        let q = choose|q: int| 0 <= q < before.len() && before[q] == v;
                        if q < pos {
                            assert(r@[q] == before[q]);
                            assert(r@[q] == v);
                        } else {
                            assert(r@[q + 1] == before[q]);
                            assert(r@[q + 1] == v);
                        }
                    }
                }
            }
            assert forall|p: int, q: int| 0 <= p < r@.len() && 0 <= q < r@.len() && p != q implies r@[p] != r@[q] by {
                let pp = if p < pos { p } else { p - 1 };
                let qq = if q < pos { q } else { q - 1 };
                if p != pos && q != pos {
                    assert(r@[p] == before[pp]);
                    assert(r@[q] == before[qq]);
                } else if p == pos {
                    assert(r@[q] == before[qq]);
                    assert(before.contains(before[qq]));
                } else {
                    assert(r@[p] == before[pp]);
                    assert(before.contains(before[pp]));
                }
            }
            assert forall|p: int, q: int| 0 <= p < q < r@.len() implies sizes@[r@[p] as int] >= sizes@[r@[q] as int] by {
                if q < pos {
                } else if q == pos {
                    assert(sizes@[before[p] as int] >= sx);
                } else if p == pos {
                    assert(r@[q] == before[q - 1]);
                    if pos < before.len() {
                        assert(!(sizes@[before[pos as int] as int] >= sx));
                        if q - 1 > pos {
                            assert(sizes@[before[pos as int] as int] >= sizes@[before[q - 1] as int]);
                        }
                    }
                } else if p < pos {
                    assert(r@[q] == before[q - 1]);
                } else {
                    assert(r@[q] == before[q - 1]);
                    assert(r@[p] == before[p - 1]);
                }
            }
        }
        j += 1;
    }
    assert(ks@.take(ks@.len() as int) == ks@);
    r
}

/// Backtracking injective matching: each a-child maps to a distinct b-child subtree.
fn match_children(
    a: &Tree,
    a_children: &Vec<usize>,
    start: usize,
    a_sizes: &Vec<usize>,
    b: &Tree,
    b_children: &Vec<usize>,
    b_sizes: &Vec<usize>,
    used: &mut Vec<bool>,
    Ghost(parent): Ghost<int>,
) -> (r: bool)
    requires
        a@.wf(),
        b@.wf(),
        start <= a_children@.len(),
        0 <= parent,
        forall|q: int| 0 <= q < a_children@.len() ==> parent < #[trigger] a_children@[q] < a@.len(),
        forall|q: int| 0 <= q < b_children@.len() ==> #[trigger] b_children@[q] < b@.len(),
        old(used)@.len() == b_children@.len(),
        sizes_of(a@, a_sizes@),
        sizes_of(b@, b_sizes@),
    ensures
        r == list_match(a@, a_children@.skip(start as int), b@, b_children@, old(used)@),
        !r ==> final(used)@ == old(used)@,
    decreases a@.len() - parent, 2int, a_children@.len() - start,
{
    let ghost ta = a@;
    let ghost tb = b@;
    let ghost rest = a_children@.skip(start as int);
    if start == a_children.len() {
        proof {
            lemma_list_match_empty(ta, rest, tb, b_children@, used@);
        }
        return true;
    }
    let ac = a_children[start];
    let ac_size = a_sizes[ac];
    proof {
        assert(rest[0] == ac);
        assert(rest.drop_first() =~= a_children@.skip(start + 1));
        lemma_list_match_step(ta, rest, tb, b_children@, used@);
    }
    let ghost orig = used@;
    let n = a_children.len();
    let mut i: usize = 0;
    while i < b_children.len()
        invariant
            ta == a@,
            0 <= parent,
            n == a_children@.len(),
            tb == b@,
            ta.wf(),
            tb.wf(),
            start < a_children@.len(),
            ac == a_children@[start as int],
            parent < ac < ta.len(),
            ac_size == ta.subtree_size(ac as int),
            forall|q: int| 0 <= q < a_children@.len() ==> parent < #[trigger] a_children@[q] < ta.len(),
            forall|q: int| 0 <= q < b_children@.len() ==> #[trigger] b_children@[q] < tb.len(),
            sizes_of(ta, a_sizes@),
            sizes_of(tb, b_sizes@),
            used@ == orig,
            orig == old(used)@,
            orig.len() == b_children@.len(),
            i <= b_children@.len(),
            forall|k: int| 0 <= k < i ==> !(!orig[k] && #[trigger] below(ta, ac as int, tb, b_children@[k] as int)
                && list_match(ta, a_children@.skip(start + 1), tb, b_children@, orig.update(k, true))),
        decreases b_children@.len() - i,
    {
        let bc = b_children[i];
        if !used[i] && b_sizes[bc] >= ac_size && can_embed_in_subtree(a, ac, a_sizes, b, bc, b_sizes) {
            used.set(i, true);
            if match_children(a, a_children, start + 1, a_sizes, b, b_children, b_sizes, used, Ghost(parent)) {
                proof {
                    let rest = a_children@.skip(start as int);
                    assert(rest[0] == ac);
                    assert(rest.drop_first() =~= a_children@.skip(start + 1));
                    lemma_list_match_step(ta, rest, tb, b_children@, orig);
                    assert(below(ta, rest[0] as int, tb, b_children@[i as int] as int));
                }
                return true;
            }
            used.set(i, false);
            assert(used@ =~= orig);
        } else {
            proof {
                if b_sizes@[bc as int] < ac_size && below(ta, ac as int, tb, bc as int) {
                    lemma_below_size(ta, ac as int, tb, bc as int);
                }
            }
        }
        i += 1;
    }
    false
}

/// Check if the subtree of `a` at `a_node` can embed *somewhere* in the subtree of `b` at `b_node`.
#[verifier::rlimit(40)]
#[verifier::spinoff_prover]
fn can_embed_in_subtree(
    a: &Tree,
    a_node: usize,
    a_sizes: &Vec<usize>,
    b: &Tree,
    b_node: usize,
    b_sizes: &Vec<usize>,
) -> (r: bool)
    requires
        a@.wf(),
        b@.wf(),
        a_node < a@.len(),
        b_node < b@.len(),
        sizes_of(a@, a_sizes@),
        sizes_of(b@, b_sizes@),
    ensures
        r == below(a@, a_node as int, b@, b_node as int),
    decreases a@.len() - a_node, 4int, 0int,
{
    let ghost ta = a@;
    let ghost tb = b@;
    let a_label = a.nodes[a_node].label;
    let a_size = a_sizes[a_node];
    let mut stack: Vec<usize> = vec![b_node];
    proof {
        assert(stack@.drop_last() =~= Seq::<usize>::empty());
        assert(tb.flat(stack@) == tb.dfs_order(stack@.last() as int) + tb.flat(stack@.drop_last()));
        assert(tb.flat(stack@) =~= tb.dfs_order(b_node as int));
        lemma_dfs_props(tb, b_node as int);
    }
    while stack.len() > 0
        invariant
            ta == a@,
            tb == b@,
            ta.wf(),
            tb.wf(),
            a_node < ta.len(),
            b_node < tb.len(),
            a_label == ta.label(a_node as int),
            a_size == ta.subtree_size(a_node as int),
            sizes_of(ta, a_sizes@),
            sizes_of(tb, b_sizes@),
            forall|k: int| 0 <= k < stack@.len() ==> #[trigger] stack@[k] < tb.len(),
            forall|k: int| 0 <= k < stack@.len() ==> tb.dfs_order(b_node as int).contains(#[trigger] stack@[k]),
            forall|z: usize| #[trigger] tb.dfs_order(b_node as int).contains(z) && emb_at(ta, a_node as int, tb, z as int)
                ==> tb.flat(stack@).contains(z),
        decreases tb.flat(stack@).len(),
    {
        let ghost before = stack@;
        let bn = stack.pop().unwrap();
        proof {
            assert(before.last() == bn);
            assert(before.drop_last() == stack@);
            assert(before[before.len() - 1] == bn);
            lemma_dfs_unfold(tb, bn as int);
        }
        if b.nodes[bn].label == a_label
            && b_sizes[bn] >= a_size
            && embeds_with_sizes(a, a_node, a_sizes, b, bn, b_sizes)
        {
            proof {
                lemma_dfs_props(tb, bn as int);
                assert(tb.dfs_order(bn as int)[0] == bn);
            }
            return true;
        }
        proof {
            if emb_at(ta, a_node as int, tb, bn as int) {
                lemma_emb_size(ta, a_node as int, tb, bn as int);
            }
        }
        let ghost rest = stack@;
        let children = &b.nodes[bn].children;
        let mut j: usize = 0;
        while j < children.len()
            invariant
                tb == b@,
                tb.wf(),
                bn < tb.len(),
                b_node < tb.len(),
                tb.dfs_order(b_node as int).contains(bn),
                children@ == tb.kids(bn as int),
                sizes_of(tb, b_sizes@),
                j <= children@.len(),
                stack@.len() >= rest.len(),
                stack@.take(rest.len() as int) == rest,
                forall|k: int| rest.len() <= k < stack@.len() ==> children@.take(j as int).contains(#[trigger] stack@[k]),
                forall|k: int| 0 <= k < stack@.len() ==> #[trigger] stack@[k] < tb.len(),
                forall|k: int| 0 <= k < stack@.len() ==> tb.dfs_order(b_node as int).contains(#[trigger] stack@[k]),
                forall|q: int| 0 <= q < j && b_sizes@[children@[q] as int] >= a_size ==> stack@.contains(#[trigger] children@[q]),
                tb.flat(stack@.skip(rest.len() as int)).len() <= tb.flat(children@.take(j as int)).len(),
            decreases children@.len() - j,
        {
            let c = children[j];
            assert(bn < c < tb.len());
            let ghost sbefore = stack@;
            if b_sizes[c] >= a_size {
                stack.push(c);
                proof {
                    crate::subtree::lemma_kid_in_dfs(tb, bn as int, j as int);
                    lemma_dfs_trans(tb, c, bn, b_node as int);
                    assert(stack@.skip(rest.len() as int) =~= sbefore.skip(rest.len() as int) + seq![c]);
                    lemma_flat_append(tb, sbefore.skip(rest.len() as int), seq![c]);
                    assert(stack@.take(rest.len() as int) =~= rest);
                }
            }
            proof {
                assert(children@.take(j + 1) =~= children@.take(j as int) + seq![c]);
                lemma_flat_append(tb, children@.take(j as int), seq![c]);
                assert(tb.flat(seq![c]) == tb.dfs_order(c as int) + tb.flat(seq![])) by {
                    assert(seq![c].drop_last() =~= Seq::<usize>::empty());
                }
                assert forall|k: int| rest.len() <= k < stack@.len() implies children@.take(j + 1).contains(#[trigger] stack@[k]) by {
                    if k < sbefore.len() {
                        assert(children@.take(j as int).contains(sbefore[k]));
                        let tk = children@.take(j as int);
                        let q = choose|q: int| 0 <= q < tk.len() && tk[q] == sbefore[k];
                        assert(children@.take(j + 1)[q] == sbefore[k]);
                    } else {
                        assert(children@.take(j + 1)[j as int] == c);
                    }
                }
                assert forall|q: int| 0 <= q < j + 1 && b_sizes@[children@[q] as int] >= a_size implies stack@.contains(#[trigger] children@[q]) by {
                    if q < j {
                        let k = choose|k: int| 0 <= k < sbefore.len() && sbefore[k] == children@[q];
                        assert(stack@[k] == children@[q]);
                    } else {
                        assert(stack@[stack@.len() - 1] == c);
                    }
                }
            }
            j += 1;
        }
        proof {
            assert(children@.take(children@.len() as int) == children@);
            assert(stack@ =~= rest + stack@.skip(rest.len() as int));
            lemma_flat_append(tb, rest, stack@.skip(rest.len() as int));
            lemma_flat_append(tb, rest, children@);
            assert forall|z: usize| #[trigger] tb.dfs_order(b_node as int).contains(z) && emb_at(ta, a_node as int, tb, z as int)
                implies tb.flat(stack@).contains(z) by {
                lemma_flat_contains(tb, before, z);
                let k = choose|k: int| 0 <= k < before.len() && #[trigger] tb.dfs_order(before[k] as int).contains(z);
                if k < before.len() - 1 {
                    assert(rest[k] == before[k]);
                    assert(stack@[k] == before[k]);
                    lemma_flat_contains(tb, stack@, z);
                } else {
                    assert(z != bn);
                    lemma_dfs_contains(tb, bn as int, z);
                    let q = choose|q: int| 0 <= q < tb.kids(bn as int).len() && #[trigger] tb.dfs_order(tb.kids(bn as int)[q] as int).contains(z);
                    let c = children@[q];
                    lemma_emb_size(ta, a_node as int, tb, z as int);
                    lemma_sub_size(tb, z, c as int);
                    assert(b_sizes@[c as int] >= a_size);
                    assert(stack@.contains(c));
                    let k2 = choose|k2: int| 0 <= k2 < stack@.len() && stack@[k2] == c;
                    lemma_flat_contains(tb, stack@, z);
                }
            }
        }
    }
    proof {
        if below(ta, a_node as int, tb, b_node as int) {
            let z = choose|z: usize| #[trigger] tb.dfs_order(b_node as int).contains(z) && emb_at(ta, a_node as int, tb, z as int);
            assert(stack@ =~= Seq::<usize>::empty());
        }
    }
    false
}

} // verus!
