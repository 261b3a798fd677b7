//! The orders in which candidate trees are listed, and the parallel sort that
//! arranges them.

use vstd::prelude::*;
use vstd::relations::sorted_by;
use rayon::iter::{IntoParallelRefIterator, ParallelIterator};
use rayon::slice::ParallelSliceMut;
use crate::fingerprint::TreeFingerprint;
use std::cmp::Ordering;
use crate::order::{compare_text, lemma_text_le_antisym, lemma_text_le_total, ordering_of, text_le};
use crate::tree::Tree;

verus! {

/// How candidate lists are ordered.
#[derive(Clone, Copy, Debug, PartialEq, Eq, Structural)]
pub enum CandidateOrder {
    /// By canonical form only.
    ByCanon,
    /// More nodes first; equal sizes by canonical form.
    LargestFirst,
    /// Fewer nodes first; equal sizes by canonical form.
    SmallestFirst,
}

/// `x` may precede `y` in `order`.
pub open spec fn cand_le(order: CandidateOrder, x: (String, Tree), y: (String, Tree)) -> bool {
    match order {
        CandidateOrder::ByCanon => text_le(x.0@, y.0@),
        CandidateOrder::LargestFirst => x.1@.len() > y.1@.len() || (x.1@.len() == y.1@.len() && text_le(
            x.0@,
            y.0@,
        )),
        CandidateOrder::SmallestFirst => x.1@.len() < y.1@.len() || (x.1@.len() == y.1@.len()
            && text_le(x.0@, y.0@)),
    }
}

/// The relation `cand_le(order, _, _)` as a value.
pub open spec fn cand_order(order: CandidateOrder) -> spec_fn((String, Tree), (String, Tree)) -> bool {
    |x: (String, Tree), y: (String, Tree)| cand_le(order, x, y)
}

/// Three-way comparison of two candidates in `order`.
pub fn compare_candidates(order: CandidateOrder, a: &(String, Tree), b: &(String, Tree)) -> (r: Ordering)
    ensures
        r == ordering_of(cand_le(order, *a, *b), cand_le(order, *b, *a)),
{
    let c = compare_text(a.0.as_str(), b.0.as_str());
    proof {
        lemma_text_le_total(a.0@, b.0@);
        if text_le(a.0@, b.0@) && text_le(b.0@, a.0@) {
            lemma_text_le_antisym(a.0@, b.0@);
        }
    }
    match order {
        CandidateOrder::ByCanon => c,
        CandidateOrder::LargestFirst => {
            let sa = a.1.size();
            let sb = b.1.size();
            if sa > sb {
                Ordering::Less
            } else if sa < sb {
                Ordering::Greater
            } else {
                c
            }
        },
        CandidateOrder::SmallestFirst => {
            let sa = a.1.size();
            let sb = b.1.size();
            if sa < sb {
                Ordering::Less
            } else if sa > sb {
                Ordering::Greater
            } else {
                c
            }
        },
    }
}

/// Sorts the candidates in parallel with rayon's `par_sort_unstable_by`, comparing
/// them with `compare_candidates`.
///
/// Trusted: rayon documents that the slice ends up sorted by the comparator (equal
/// elements in some order); the comparator is a total preorder, so the result is a
/// rearrangement of the input in which each element may precede every later one.
#[verifier::external_body]
pub(crate) fn par_sort_candidates(v: &mut Vec<(String, Tree)>, order: CandidateOrder)
    ensures
        final(v)@.to_multiset() == old(v)@.to_multiset(),
        sorted_by(final(v)@, cand_order(order)),
{
    v.as_mut_slice().par_sort_unstable_by(|a, b| compare_candidates(order, a, b));
}

/// The fingerprints of the candidates' trees, computed in parallel with rayon's
/// `par_iter().map(..).collect()`, each by `TreeFingerprint::compute`.
///
/// Trusted: rayon collects an indexed parallel map into a vector with one
/// result per element, in the order of the elements; each result is what
/// `compute` returns for that element's tree, which describes the tree.
#[verifier::external_body]
pub(crate) fn par_fingerprints(v: &Vec<(String, Tree)>) -> (r: Vec<TreeFingerprint>)
    ensures
        r@.len() == v@.len(),
        forall|i: int| 0 <= i < r@.len() ==> (#[trigger] r@[i]).describes(v@[i].1@),
{
    v.par_iter().map(|e| TreeFingerprint::compute(&e.1)).collect()
}

} // verus!
