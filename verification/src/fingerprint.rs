//! Precomputed per-tree fingerprints for fast embedding pre-rejection.

use vstd::prelude::*;
use crate::tree::{Tree, TreeView};
use crate::embed_spec::{
    count_in, emb_at, embeds_spec, lemma_count_root, lemma_count_subset, lemma_emb_count,
    lemma_emb_degree, lemma_emb_size,
};
use crate::subtree::{lemma_dfs_len, lemma_dfs_props, lemma_index_seq_len, lemma_root_covers};

verus! {

/// Precomputed per-tree fingerprint for fast embedding pre-rejection.
///
/// Entirely stack-allocated (no heap). `compatible(a, b)` returns `false` if
/// `a` definitely cannot homeomorphically embed into `b`:
///
/// 1. **Size**: `a.size > b.size`
/// 2. **Label counts**: any label appears more times in A than B
/// 3. **Max degree per label**: for each label l, the maximum child-count of
///    any node with label l in A must be ≤ that in B. A wider node in A cannot
///    map to any narrower node in B (each A-child needs a distinct B-branch).
///
/// Supports up to 8 distinct labels (sufficient for k ≤ 7).
#[derive(Clone, Copy, Debug)]
pub struct TreeFingerprint {
    pub size: u8,
    pub label_counts: [u8; 8],
    pub max_degree_per_label: [u8; 8],
}

/// The label bucket of a node: its label, with every label above 7 sharing bucket 7.
pub open spec fn bucket(label: u32) -> u32 {
    if label > 7 {
        7
    } else {
        label
    }
}

/// The predicate "falls in bucket `l`".
pub open spec fn in_bucket(l: u32) -> spec_fn(u32) -> bool {
    |x: u32| bucket(x) == l
}

/// The number of children of node `i`, kept in a byte as `as u8` keeps it.
pub open spec fn degree_byte(t: TreeView, i: int) -> u8 {
    t.kids(i).len() as u8
}

/// Number of the first `n` nodes in bucket `l`.
pub open spec fn bucket_count(t: TreeView, n: int, l: u32) -> nat {
    count_in(t, Seq::new(n as nat, |i: int| i as usize), in_bucket(l))
}

/// Largest degree byte among the first `n` nodes in bucket `l` (0 when there are none).
pub open spec fn bucket_max_degree(t: TreeView, n: int, l: u32) -> u8
    decreases n,
{
    if n <= 0 {
        0
    } else {
        let m = bucket_max_degree(t, n - 1, l);
        if bucket(t.label(n - 1)) == l && degree_byte(t, n - 1) > m {
            degree_byte(t, n - 1)
        } else {
            m
        }
    }
}

impl TreeFingerprint {
    /// The fingerprint holds the figures of tree `t`.
    pub open spec fn describes(self, t: TreeView) -> bool {
        &&& self.size == t.len() as u8
        &&& forall|l: u32| #![trigger self.label_counts@[l as int]] l < 8 ==> self.label_counts@[l as int] as nat
            == if bucket_count(t, t.len() as int, l) > 255 {
            255
        } else {
            bucket_count(t, t.len() as int, l)
        }
        &&& forall|l: u32| #![trigger self.max_degree_per_label@[l as int]] l < 8 ==> self.max_degree_per_label@[l as int]
            == bucket_max_degree(t, t.len() as int, l)
    }

    /// No figure of `a` exceeds the matching figure of `b` (labels 1 to 7).
    pub open spec fn compatible_spec(a: TreeFingerprint, b: TreeFingerprint) -> bool {
        &&& a.size <= b.size
        &&& forall|l: int| 1 <= l < 8 ==> #[trigger] a.label_counts@[l] <= b.label_counts@[l]
            && a.max_degree_per_label@[l] <= b.max_degree_per_label@[l]
    }

    #[inline]
    pub fn compute(tree: &Tree) -> (fp: Self)
        ensures
            fp.describes(tree@),
    {
        let ghost t = tree@;
        let mut label_counts = [0u8; 8];
        let mut max_degree_per_label = [0u8; 8];
        let mut i: usize = 0;
        while i < tree.nodes.len()
            invariant
                t == tree@,
                i <= t.len(),
                forall|l: u32| #![trigger label_counts@[l as int]] l < 8 ==> label_counts@[l as int] as nat == if bucket_count(t, i as int, l) > 255 {
                    255
                } else {
                    bucket_count(t, i as int, l)
                },
                forall|l: u32| #![trigger max_degree_per_label@[l as int]] l < 8 ==> max_degree_per_label@[l as int]
                    == bucket_max_degree(t, i as int, l),
            decreases t.len() - i,
        {
            let node = &tree.nodes[i];
            assert(node@ == t.nodes[i as int]);
            let l: usize = if node.label > 7 {
                7
            } else {
                node.label as usize
            };
            proof {
                assert forall|m: u32| m < 8 implies #[trigger] bucket_count(t, i + 1, m) == bucket_count(t, i as int, m) + if bucket(t.label(i as int)) == m {
                    1nat
                } else {
                    0nat
                } by {
                    let s = Seq::new((i + 1) as nat, |k: int| k as usize);
                    assert(s.drop_last() =~= Seq::new(i as nat, |k: int| k as usize));
                    assert(s.last() as int == i);
                }
            }
            let ghost old_counts = label_counts@;
            let ghost old_deg = max_degree_per_label@;
            label_counts[l] = label_counts[l].saturating_add(1);
            let d = #[verifier::truncate] (node.children.len() as u8);
            assert(d == degree_byte(t, i as int));
            if d > max_degree_per_label[l] {
                max_degree_per_label[l] = d;
            }
            proof {
                assert forall|m: u32| #![trigger label_counts@[m as int]] m < 8 implies label_counts@[m as int] as nat == if bucket_count(t, i + 1, m) > 255 {
                    255
                } else {
                    bucket_count(t, i + 1, m)
                } by {
                    assert(old_counts[m as int] as nat == if bucket_count(t, i as int, m) > 255 {
                        255
                    } else {
                        bucket_count(t, i as int, m)
                    });
                }
                assert forall|m: u32| #![trigger max_degree_per_label@[m as int]] m < 8 implies max_degree_per_label@[m as int]
                    == bucket_max_degree(t, i + 1, m) by {
                    assert(old_deg[m as int] == bucket_max_degree(t, i as int, m));
                }
            }
            i += 1;
        }
        TreeFingerprint {
            size: #[verifier::truncate] (tree.nodes.len() as u8),
            label_counts,
            max_degree_per_label,
        }
    }

    /// Returns `false` if `a` definitely cannot embed into `b`.
    /// Returns `true` if embedding is still plausible.
    #[inline]
    pub fn compatible(a: &Self, b: &Self) -> (r: bool)
        ensures
            r == TreeFingerprint::compatible_spec(*a, *b),
    {
        if a.size > b.size {
            return false;
        }
        let mut l: usize = 1;
        while l < 8
            invariant
                1 <= l <= 8,
                a.size <= b.size,
                forall|m: int| 1 <= m < l ==> #[trigger] a.label_counts@[m] <= b.label_counts@[m]
                    && a.max_degree_per_label@[m] <= b.max_degree_per_label@[m],
            decreases 8 - l,
        {
            if a.label_counts[l] > b.label_counts[l] {
                return false;
            }
            // The widest A-node with label l needs a B-node with label l
            // that has at least as many children.
            if a.max_degree_per_label[l] > b.max_degree_per_label[l] {
                return false;
            }
            l += 1;
        }
        true
    }
}

proof fn lemma_max_degree_props(t: TreeView, n: int, l: u32)
    requires
        0 <= n <= t.len(),
    ensures
        forall|u: int| 0 <= u < n && bucket(#[trigger] t.label(u)) == l ==> degree_byte(t, u) <= bucket_max_degree(t, n, l),
        bucket_max_degree(t, n, l) == 0 || exists|u: int| 0 <= u < n && bucket(#[trigger] t.label(u)) == l
            && degree_byte(t, u) == bucket_max_degree(t, n, l),
    decreases n,
{
    if n > 0 {
        lemma_max_degree_props(t, n - 1, l);
    }
}

proof fn lemma_kids_len(t: TreeView, u: int)
    requires
        t.wf(),
        0 <= u < t.len(),
    ensures
        t.kids(u).len() <= t.len(),
{
    assert forall|k: int| 0 <= k < t.kids(u).len() implies t.kids(u)[k] < t.len() by {
        assert(u < t.kids(u)[k] < t.len());
    }
    assert(t.kids(u).no_duplicates());
    lemma_index_seq_len(t.kids(u), t.len() as int);
}

/// The fingerprint check never rejects a pair that embeds: if `a` embeds into `b`
/// (and `b` has fewer than 256 nodes, so that the byte-sized figures are exact),
/// their fingerprints are compatible.
pub proof fn lemma_compatible_sound(a: TreeView, b: TreeView, fa: TreeFingerprint, fb: TreeFingerprint)
    requires
        a.wf(),
        b.wf(),
        b.len() < 256,
        fa.describes(a),
        fb.describes(b),
        embeds_spec(a, b),
    ensures
        TreeFingerprint::compatible_spec(fa, fb),
{
    let y = choose|y: int| 0 <= y < b.len() && #[trigger] emb_at(a, a.root as int, b, y);
    lemma_emb_size(a, 0, b, y);
    lemma_root_covers(a);
    lemma_root_covers(b);
    lemma_dfs_len(b, y);
    assert(a.len() <= b.len());
    assert(fa.size == a.len());
    assert(fb.size == b.len());
    lemma_dfs_props(b, y);
    lemma_dfs_props(b, 0);
    assert forall|v: usize| b.dfs_order(y).contains(v) implies b.dfs_order(0).contains(v) by {}
    assert forall|l: int| 1 <= l < 8 implies #[trigger] fa.label_counts@[l] <= fb.label_counts@[l]
        && fa.max_degree_per_label@[l] <= fb.max_degree_per_label@[l] by {
        let lu = l as u32;
        let p = in_bucket(lu);
        lemma_emb_count(a, 0, b, y, p);
        lemma_count_root(a, p);
        lemma_count_root(b, p);
        lemma_count_subset(b, b.dfs_order(y), b.dfs_order(0), p);
        assert(bucket_count(a, a.len() as int, lu) <= bucket_count(b, b.len() as int, lu));
        assert(fa.label_counts@[lu as int] == fa.label_counts@[l]);
        lemma_max_degree_props(a, a.len() as int, lu);
        lemma_max_degree_props(b, b.len() as int, lu);
        let ma = bucket_max_degree(a, a.len() as int, lu);
        if ma != 0 {
            let u = choose|u: int| 0 <= u < a.len() && bucket(#[trigger] a.label(u)) == lu && degree_byte(a, u) == ma;
            assert(a.dfs_order(0).contains(u as usize));
            lemma_emb_degree(a, 0, b, y, u as usize);
            let v = choose|v: usize| #[trigger] b.dfs_order(y).contains(v) && b.label(v as int) == a.label(u as int)
                && b.kids(v as int).len() >= a.kids(u as int).len();
            lemma_kids_len(a, u);
            lemma_kids_len(b, v as int);
            assert(degree_byte(b, v as int) <= bucket_max_degree(b, b.len() as int, lu));
        }
    }
    assert(fa.size <= fb.size);
    assert(TreeFingerprint::compatible_spec(fa, fb));
}

/// The number of nodes of `t` whose label satisfies `p`.
pub open spec fn label_total(t: TreeView, p: spec_fn(u32) -> bool) -> nat {
    count_in(t, Seq::new(t.len(), |i: int| i as usize), p)
}

/// `n`, or 255 when it does not fit in a byte slot.
pub open spec fn saturated(n: nat) -> nat {
    if n > 255 {
        255
    } else {
        n
    }
}

/// What a fingerprint counts: its slot `l` for each label `1 <= l < 7` holds the
/// number of nodes labelled exactly `l`, and its last slot the number of nodes
/// labelled 7 or more, each count stopping at 255; a tree of fewer than 256
/// nodes has its node count as size.
pub proof fn lemma_fingerprint_counts(fp: TreeFingerprint, t: TreeView)
    requires
        fp.describes(t),
    ensures
        forall|l: u32| 1 <= l < 7 ==> #[trigger] fp.label_counts@[l as int] as nat == saturated(
            label_total(t, |x: u32| x == l),
        ),
        fp.label_counts@[7] as nat == saturated(label_total(t, |x: u32| x >= 7)),
        t.len() < 256 ==> fp.size == t.len(),
{
    assert forall|l: u32| 1 <= l < 7 implies #[trigger] fp.label_counts@[l as int] as nat == saturated(
        label_total(t, |x: u32| x == l),
    ) by {
        assert(in_bucket(l) =~= (|x: u32| x == l));
        assert(Seq::new(t.len() as int as nat, |i: int| i as usize) =~= Seq::new(t.len(), |i: int| i as usize));
    }
    assert(in_bucket(7) =~= (|x: u32| x >= 7));
    assert(Seq::new(t.len() as int as nat, |i: int| i as usize) =~= Seq::new(t.len(), |i: int| i as usize));
    assert(fp.label_counts@[7u32 as int] == fp.label_counts@[7]);
}

/// What a fingerprint's degree slots hold: slot `l` (for `1 <= l < 7`) is the
/// largest child count, kept in a byte, among the nodes labelled exactly `l`,
/// and slot 7 the largest among the nodes labelled 7 or more (0 when there is
/// no such node).
pub proof fn lemma_fingerprint_degrees(fp: TreeFingerprint, t: TreeView)
    requires
        fp.describes(t),
    ensures
        forall|l: u32, i: int| 1 <= l < 7 && 0 <= i < t.len() && #[trigger] t.label(i) == l ==> degree_byte(t, i)
            <= #[trigger] fp.max_degree_per_label@[l as int],
        forall|l: u32| 1 <= l < 7 ==> #[trigger] fp.max_degree_per_label@[l as int] == 0 || exists|i: int|
            0 <= i < t.len() && t.label(i) == l && degree_byte(t, i) == fp.max_degree_per_label@[l as int],
        forall|i: int| 0 <= i < t.len() && #[trigger] t.label(i) >= 7 ==> degree_byte(t, i) <= fp.max_degree_per_label@[7],
        fp.max_degree_per_label@[7] == 0 || exists|i: int| 0 <= i < t.len() && t.label(i) >= 7 && degree_byte(t, i)
            == fp.max_degree_per_label@[7],
{
    assert forall|l: u32, i: int| 1 <= l < 7 && 0 <= i < t.len() && #[trigger] t.label(i) == l implies degree_byte(t, i)
        <= #[trigger] fp.max_degree_per_label@[l as int] by {
        lemma_max_degree_props(t, t.len() as int, l);
        assert(bucket(t.label(i)) == l);
    }
    assert forall|l: u32| 1 <= l < 7 implies #[trigger] fp.max_degree_per_label@[l as int] == 0 || exists|i: int|
        0 <= i < t.len() && t.label(i) == l && degree_byte(t, i) == fp.max_degree_per_label@[l as int] by {
        lemma_max_degree_props(t, t.len() as int, l);
        if fp.max_degree_per_label@[l as int] != 0 {
            let u = choose|u: int| 0 <= u < t.len() && bucket(#[trigger] t.label(u)) == l && degree_byte(t, u)
                == bucket_max_degree(t, t.len() as int, l);
            assert(t.label(u) == l);
        }
    }
    lemma_max_degree_props(t, t.len() as int, 7);
    assert(fp.max_degree_per_label@[7u32 as int] == fp.max_degree_per_label@[7]);
    assert forall|i: int| 0 <= i < t.len() && #[trigger] t.label(i) >= 7 implies degree_byte(t, i)
        <= fp.max_degree_per_label@[7] by {
        assert(bucket(t.label(i)) == 7);
    }
}

/// The fingerprint check passes exactly when no figure of `a` exceeds the
/// matching figure of `b`: the size, and for every label slot 1 to 7 both the
/// count and the largest child count.
pub proof fn lemma_compatible_iff(a: TreeFingerprint, b: TreeFingerprint)
    ensures
        TreeFingerprint::compatible_spec(a, b) <==> (a.size <= b.size && forall|l: int| 1 <= l < 8
            ==> #[trigger] a.label_counts@[l] <= b.label_counts@[l] && a.max_degree_per_label@[l]
            <= b.max_degree_per_label@[l]),
{
}

/// A node of `a` with children, more of them than any node of `b` with the
/// same label (between 1 and 6) has, makes the fingerprint check fail: such a
/// node cannot be mapped anywhere in `b`.
pub proof fn lemma_compatible_rejects_wider(a: TreeView, b: TreeView, fa: TreeFingerprint, fb: TreeFingerprint, i: int)
    requires
        fa.describes(a),
        fb.describes(b),
        0 <= i < a.len(),
        1 <= a.label(i) < 7,
        1 <= a.kids(i).len() < 256,
        forall|j: int| 0 <= j < b.len() && b.label(j) == a.label(i) ==> b.kids(j).len() < a.kids(i).len(),
    ensures
        !TreeFingerprint::compatible_spec(fa, fb),
{
    let l = a.label(i);
    lemma_fingerprint_degrees(fa, a);
    lemma_fingerprint_degrees(fb, b);
    assert(degree_byte(a, i) == a.kids(i).len());
    assert(degree_byte(a, i) <= fa.max_degree_per_label@[l as int]);
    if fb.max_degree_per_label@[l as int] != 0 {
        let j = choose|j: int| 0 <= j < b.len() && b.label(j) == l && degree_byte(b, j) == fb.max_degree_per_label@[l as int];
        assert(b.kids(j).len() < a.kids(i).len());
        assert(degree_byte(b, j) == b.kids(j).len());
    }
    assert(fa.max_degree_per_label@[l as int] > fb.max_degree_per_label@[l as int]);
    if TreeFingerprint::compatible_spec(fa, fb) {
        assert(fa.label_counts@[l as int] <= fb.label_counts@[l as int]);
    }
}

} // verus!
