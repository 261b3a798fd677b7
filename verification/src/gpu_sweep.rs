//! Flat, fixed-size encodings of small trees and of fingerprints, in the layout
//! that a device kernel sweeping the candidates reads.

use vstd::prelude::*;
use crate::embedding::sort_by_size_desc;
use crate::fingerprint::TreeFingerprint;
use crate::tree::{Tree, TreeView};

verus! {

/// Fixed-size flat tree encoding of a tree of at most 9 nodes.
///
/// Layout (112 bytes):
///   n          — number of nodes (≤ 9)
///   labels[9]  — label of node i
///   par[9]     — parent index (0xFF = root)
///   n_ch[9]    — number of children of node i (at most 8 are kept)
///   sz[9]      — precomputed subtree size of node i
///   ch[9][8]   — children of node i, sorted by sz desc
///   _pad[3]
#[derive(Clone, Copy)]
pub struct GpuFlatTree {
    pub n: u8,
    pub labels: [u8; 9],
    pub par: [u8; 9],
    pub n_ch: [u8; 9],
    pub sz: [u8; 9],
    pub ch: [[u8; 8]; 9],
    pub _pad: [u8; 3],
}

/// Fixed-size flat fingerprint encoding.
///
/// Layout (20 bytes):
///   size
///   label_counts[0..8]
///   max_deg[0..8]
///   _pad[3]
#[derive(Clone, Copy)]
pub struct GpuFlatFP {
    pub size: u8,
    pub label_counts: [u8; 8],
    pub max_deg: [u8; 8],
    pub _pad: [u8; 3],
}

/// Every byte of the array is zero.
pub open spec fn all_zero(a: Seq<u8>) -> bool {
    forall|i: int| 0 <= i < a.len() ==> #[trigger] a[i] == 0
}

/// Every byte of the encoding is zero.
pub open spec fn zero_tree(f: GpuFlatTree) -> bool {
    &&& f.n == 0
    &&& all_zero(f.labels@)
    &&& all_zero(f.par@)
    &&& all_zero(f.n_ch@)
    &&& all_zero(f.sz@)
    &&& forall|i: int| 0 <= i < 9 ==> all_zero(#[trigger] f.ch@[i]@)
    &&& all_zero(f._pad@)
}

impl Default for GpuFlatTree {
    fn default() -> (r: Self)
        ensures
            zero_tree(r),
    {
        GpuFlatTree {
            n: 0,
            labels: [0u8; 9],
            par: [0u8; 9],
            n_ch: [0u8; 9],
            sz: [0u8; 9],
            ch: [[0u8; 8]; 9],
            _pad: [0u8; 3],
        }
    }
}

impl Default for GpuFlatFP {
    fn default() -> (r: Self)
        ensures
            r.size == 0,
            all_zero(r.label_counts@),
            all_zero(r.max_deg@),
            all_zero(r._pad@),
    {
        GpuFlatFP { size: 0, label_counts: [0u8; 8], max_deg: [0u8; 8], _pad: [0u8; 3] }
    }
}

/// The byte recording a parent link: the parent's index, or 0xFF for the root.
pub open spec fn parent_byte(p: Option<usize>) -> u8 {
    match p {
        Some(q) => q as u8,
        None => 0xFF,
    }
}

/// The number of children kept for node `i`: at most 8.
pub open spec fn kept(t: TreeView, i: int) -> nat {
    if t.kids(i).len() < 8 {
        t.kids(i).len()
    } else {
        8
    }
}

/// `row` lists the first `kept(t, i)` children of node `i`, each once, by
/// decreasing subtree size, and zeros after them.
pub open spec fn children_row(row: Seq<u8>, t: TreeView, i: int) -> bool {
    let nc = kept(t, i) as int;
    let ks = t.kids(i).take(nc);
    &&& row.len() == 8
    &&& forall|j: int| 0 <= j < nc ==> #[trigger] ks.contains(row[j] as usize)
    &&& forall|c: usize| #[trigger] ks.contains(c) ==> exists|j: int| 0 <= j < nc && row[j] == c as u8
    &&& forall|a: int, b: int| 0 <= a < b < nc ==> #[trigger] row[a] != #[trigger] row[b]
    &&& forall|a: int, b: int| #![trigger row[a], row[b]] 0 <= a < b < nc ==> t.subtree_size(row[a] as int) >= t.subtree_size(row[b] as int)
    &&& forall|j: int| nc <= j < 8 ==> #[trigger] row[j] == 0
}

/// `f` encodes the tree `t` of at most 9 nodes; the slots of absent nodes are zero.
pub open spec fn encodes(f: GpuFlatTree, t: TreeView) -> bool {
    &&& f.n == t.len()
    &&& forall|i: int| 0 <= i < t.len() ==> {
        &&& #[trigger] f.labels@[i] == t.label(i) as u8
        &&& f.par@[i] == parent_byte(t.nodes[i].parent)
        &&& f.sz@[i] == t.subtree_size(i) as u8
        &&& f.n_ch@[i] == kept(t, i)
        &&& children_row(f.ch@[i]@, t, i)
    }
    &&& forall|i: int| t.len() <= i < 9 ==> #[trigger] f.labels@[i] == 0 && f.par@[i] == 0 && f.sz@[i] == 0
        && f.n_ch@[i] == 0 && all_zero(f.ch@[i]@)
    &&& all_zero(f._pad@)
}

/// Encode a tree of at most 9 nodes in the flat layout.
pub fn tree_to_flat(tree: &Tree) -> (flat: GpuFlatTree)
    requires
        tree@.wf(),
        tree@.len() <= 9,
    ensures
        encodes(flat, tree@),
{
    let ghost t = tree@;
    let n = tree.nodes.len();
    let sizes = tree.all_subtree_sizes();
    let mut flat = GpuFlatTree::default();
    flat.n = n as u8;
    let mut labels = flat.labels;
    let mut par = flat.par;
    let mut n_ch = flat.n_ch;
    let mut sz = flat.sz;
    let mut ch = flat.ch;
    let mut i: usize = 0;
    while i < n
        invariant
            t == tree@,
            t.wf(),
            n == t.len(),
            n <= 9,
            i <= n,
            sizes@.len() == n,
            forall|q: int| 0 <= q < n ==> #[trigger] sizes@[q] == t.subtree_size(q),
            forall|q: int| 0 <= q < i ==> {
                &&& #[trigger] labels@[q] == t.label(q) as u8
                &&& par@[q] == parent_byte(t.nodes[q].parent)
                &&& sz@[q] == t.subtree_size(q) as u8
                &&& n_ch@[q] == kept(t, q)
                &&& children_row(ch@[q]@, t, q)
            },
            forall|q: int| i <= q < 9 ==> #[trigger] labels@[q] == 0 && par@[q] == 0 && sz@[q] == 0 && n_ch@[q] == 0
                && all_zero(ch@[q]@),
        decreases n - i,
    {
        let node = &tree.nodes[i];
        assert(node@ == t.nodes[i as int]);
        let ghost l0 = labels@;
        let ghost p0 = par@;
        let ghost s0 = sz@;
        let ghost n0 = n_ch@;
        let ghost c0 = ch@;
        labels[i] = #[verifier::truncate] (node.label as u8);
        let p: u8 = match node.parent {
            Some(q) => {
                assert(q < i) by {
                    if i > 0 {
                        assert(t.nodes[i as int].parent matches Some(pp) && pp < i);
                    }
                }
                q as u8
            },
            None => 0xFF,
        };
        par[i] = p;
        proof {
            crate::subtree::lemma_dfs_len(t, i as int);
        }
        sz[i] = sizes[i] as u8;
        let nc = if node.children.len() < 8 {
            node.children.len()
        } else {
            8
        };
        n_ch[i] = nc as u8;
        let mut prefix: Vec<usize> = Vec::with_capacity(nc);
        let mut j: usize = 0;
        while j < nc
            invariant
                node@ == t.nodes[i as int],
                nc <= node.children@.len(),
                j <= nc,
                prefix@ == node.children@.take(j as int),
            decreases nc - j,
        {
            prefix.push(node.children[j]);
            j += 1;
            assert(prefix@ =~= node.children@.take(j as int));
        }
        let ghost ks = t.kids(i as int).take(nc as int);
        assert(prefix@ == ks);
        proof {
            assert(t.kids(i as int).no_duplicates());
            assert forall|a: int, b: int| 0 <= a < ks.len() && 0 <= b < ks.len() && a != b implies ks[a] != ks[b] by {
                assert(ks[a] == t.kids(i as int)[a] && ks[b] == t.kids(i as int)[b]);
            }
            assert forall|q: int| 0 <= q < ks.len() implies #[trigger] ks[q] < sizes@.len() by {
                assert(ks[q] == t.kids(i as int)[q]);
                assert(i < t.kids(i as int)[q] < t.len());
            }
        }
        let ch_sorted = sort_by_size_desc(&prefix, &sizes);
        proof {
            assert forall|q: int| 0 <= q < ch_sorted@.len() implies #[trigger] ch_sorted@[q] < n by {
                assert(ch_sorted@.contains(ch_sorted@[q]));
                assert(ks.contains(ch_sorted@[q]));
                let w = choose|w: int| 0 <= w < ks.len() && ks[w] == ch_sorted@[q];
                assert(ks[w] == t.kids(i as int)[w]);
            }
        }
        let mut row = [0u8; 8];
        let mut m: usize = 0;
        while m < ch_sorted.len()
            invariant
                ch_sorted@.len() == nc,
                nc <= 8,
                m <= nc,
                n <= 9,
                forall|q: int| 0 <= q < ch_sorted@.len() ==> #[trigger] ch_sorted@[q] < n,
                forall|q: int| 0 <= q < m ==> #[trigger] row@[q] == ch_sorted@[q] as u8,
                forall|q: int| m <= q < 8 ==> #[trigger] row@[q] == 0,
            decreases nc - m,
        {
            row[m] = ch_sorted[m] as u8;
            m += 1;
        }
        ch[i] = row;
        proof {
            assert forall|q: int| 0 <= q < nc implies (row@[q] as usize) == ch_sorted@[q] by {}
            assert(children_row(ch@[i as int]@, t, i as int)) by {
                let rw = ch@[i as int]@;
                assert(rw == row@);
                assert forall|jj: int| 0 <= jj < nc implies #[trigger] ks.contains(rw[jj] as usize) by {
                    assert(rw[jj] as usize == ch_sorted@[jj]);
                    assert(ch_sorted@.contains(ch_sorted@[jj]));
                }
                assert forall|c: usize| #[trigger] ks.contains(c) implies exists|jj: int| 0 <= jj < nc && rw[jj] == c as u8 by {
                    assert(ch_sorted@.contains(c));
                    let jj = choose|jj: int| 0 <= jj < ch_sorted@.len() && ch_sorted@[jj] == c;
                    assert(rw[jj] == c as u8);
                }
                assert forall|a: int, b: int| 0 <= a < b < nc implies #[trigger] rw[a] != #[trigger] rw[b] by {
                    assert(rw[a] as usize == ch_sorted@[a] && rw[b] as usize == ch_sorted@[b]);
                    assert(ch_sorted@[a] != ch_sorted@[b]);
                }
                assert forall|a: int, b: int| #![trigger rw[a], rw[b]] 0 <= a < b < nc implies t.subtree_size(rw[a] as int)
                    >= t.subtree_size(rw[b] as int) by {
                    assert(rw[a] as usize == ch_sorted@[a] && rw[b] as usize == ch_sorted@[b]);
                    assert(sizes@[ch_sorted@[a] as int] >= sizes@[ch_sorted@[b] as int]);
                }
            }
        }
        proof {
            assert(labels@ == l0.update(i as int, labels@[i as int]));
            assert(par@ == p0.update(i as int, par@[i as int]));
            assert(sz@ == s0.update(i as int, sz@[i as int]));
            assert(n_ch@ == n0.update(i as int, n_ch@[i as int]));
            assert(ch@ == c0.update(i as int, ch@[i as int]));
            assert(sz@[i as int] == t.subtree_size(i as int) as u8);
            assert(n_ch@[i as int] == kept(t, i as int));
            assert forall|q: int| 0 <= q < i + 1 implies {
                &&& #[trigger] labels@[q] == t.label(q) as u8
                &&& par@[q] == parent_byte(t.nodes[q].parent)
                &&& sz@[q] == t.subtree_size(q) as u8
                &&& n_ch@[q] == kept(t, q)
                &&& children_row(ch@[q]@, t, q)
            } by {
                if q < i {
                    assert(l0[q] == t.label(q) as u8);
                }
            }
            assert forall|q: int| i + 1 <= q < 9 implies #[trigger] labels@[q] == 0 && par@[q] == 0 && sz@[q] == 0
                && n_ch@[q] == 0 && all_zero(ch@[q]@) by {
                assert(l0[q] == 0);
            }
        }
        i += 1;
    }
    GpuFlatTree { n: flat.n, labels, par, n_ch, sz, ch, _pad: flat._pad }
}

/// Copy a fingerprint into the flat layout.
pub fn fp_to_flat(fp: &TreeFingerprint) -> (f: GpuFlatFP)
    ensures
        f.size == fp.size,
        f.label_counts == fp.label_counts,
        f.max_deg == fp.max_degree_per_label,
        all_zero(f._pad@),
{
    GpuFlatFP { size: fp.size, label_counts: fp.label_counts, max_deg: fp.max_degree_per_label, _pad: [0; 3] }
}

} // verus!
