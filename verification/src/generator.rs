//! Enumeration of all labelled trees of a given size (one per canonical form),
//! the candidate pool, and the greedy and exhaustive TREE(k) sequence searches.

use vstd::prelude::*;
use std::collections::HashMap;
use rayon::iter::{IndexedParallelIterator, IntoParallelIterator, IntoParallelRefIterator, IntoParallelRefMutIterator, ParallelIterator};
use vstd::relations::sorted_by;
use crate::candidate_order::{cand_le, cand_order, par_fingerprints, par_sort_candidates, CandidateOrder};
use crate::canonical::{canonicalize, decimal, digit_char, tree_canon};
use crate::embed_spec::embeds_spec;
use crate::embedding::{embeds, label_count, label_table_fits};
use crate::fingerprint::TreeFingerprint;
use crate::forms::{form_of, form_step, is_form, lemma_sorted_step};
use crate::embed_spec::seq_sum;
use crate::order::{lemma_text_le_antisym, lemma_text_le_refl, lemma_text_le_total, lemma_text_le_trans, text_le, text_less};
use crate::tree::{build_view, single_view, total_len, Tree, TreeView};

verus! {

/// Every label of `t` lies in `1..=k`.
pub open spec fn labels_within(t: TreeView, k: u32) -> bool {
    forall|i: int| 0 <= i < t.len() ==> 1 <= #[trigger] t.label(i) <= k
}

proof fn lemma_graft_labels(t: TreeView, p: usize, o: TreeView, k: u32)
    requires
        labels_within(t, k),
        labels_within(o, k),
        p < t.len(),
    ensures
        labels_within(t.graft_view(p, o), k),
        t.graft_view(p, o).len() == t.len() + o.len(),
{
    let n = t.graft_view(p, o);
    assert forall|i: int| 0 <= i < n.len() implies 1 <= #[trigger] n.label(i) <= k by {
        if i >= t.len() {
            assert(n.nodes[i] == TreeView::shifted(o, i - t.len(), t.len() as int, p));
            assert(n.label(i) == o.label(i - t.len()));
        } else if i == p {
            assert(n.label(i) == t.label(i));
        } else {
            assert(n.nodes[i] == t.nodes[i]);
            assert(n.label(i) == t.label(i));
        }
    }
}

/// A root labelled in `1..=k` above trees labelled in `1..=k` is labelled in `1..=k`.
proof fn lemma_build_labels(label: u32, kids: Seq<TreeView>, k: u32)
    requires
        1 <= label <= k,
        forall|j: int| 0 <= j < kids.len() ==> labels_within(#[trigger] kids[j], k),
    ensures
        labels_within(build_view(label, kids), k),
        build_view(label, kids).len() >= 1,
    decreases kids.len(),
{
    if kids.len() > 0 {
        let front = kids.drop_last();
        assert forall|j: int| 0 <= j < front.len() implies labels_within(#[trigger] front[j], k) by {
            assert(front[j] == kids[j]);
        }
        lemma_build_labels(label, front, k);
        lemma_graft_labels(build_view(label, front), 0, kids.last(), k);
    }
}

proof fn lemma_digit_char_injective(a: nat, b: nat)
    requires
        a < 10,
        b < 10,
        digit_char(a) == digit_char(b),
    ensures
        a == b,
{
}

proof fn lemma_decimal_len(n: nat)
    ensures
        decimal(n).len() >= 1,
        n >= 10 ==> decimal(n).len() >= 2,
    decreases n,
{
    if n >= 10 {
        lemma_decimal_len(n / 10);
    }
}

/// Different numbers have different decimal forms.
pub proof fn lemma_decimal_injective(a: nat, b: nat)
    requires
        decimal(a) == decimal(b),
    ensures
        a == b,
    decreases a,
{
    lemma_decimal_len(a);
    lemma_decimal_len(b);
    if a < 10 && b < 10 {
        assert(decimal(a)[0] == digit_char(a));
        assert(decimal(b)[0] == digit_char(b));
        lemma_digit_char_injective(a, b);
    } else if a >= 10 && b >= 10 {
        let da = decimal(a);
        let db = decimal(b);
        assert(da.last() == digit_char(a % 10));
        assert(db.last() == digit_char(b % 10));
        lemma_digit_char_injective(a % 10, b % 10);
        assert(da.drop_last() == decimal(a / 10));
        assert(db.drop_last() == decimal(b / 10));
        lemma_decimal_injective(a / 10, b / 10);
    }
}


/// A candidate: a well-formed tree labelled in `1..=k`, kept with its canonical form.
pub open spec fn candidate_ok(c: (String, Tree), k: u32) -> bool {
    &&& c.1@.wf()
    &&& labels_within(c.1@, k)
    &&& c.0@ == tree_canon(c.1@)
}

/// The canonical forms in `v` are pairwise distinct.
pub open spec fn distinct_forms(v: Seq<(String, Tree)>) -> bool {
    forall|i: int, j: int| #![trigger v[i], v[j]] 0 <= i < j < v.len() ==> v[i].0@ != v[j].0@
}

/// The canonical forms in `v` are in text order.
pub open spec fn forms_sorted(v: Seq<(String, Tree)>) -> bool {
    forall|i: int, j: int| #![trigger v[i], v[j]] 0 <= i < j < v.len() ==> text_le(v[i].0@, v[j].0@)
}

/// A list of the trees of one size: `size`-node candidates with distinct forms,
/// listed in text order of the forms from size 2 on (single nodes come by label).
pub open spec fn size_list_ok(v: Seq<(String, Tree)>, size: nat, k: u32) -> bool {
    &&& forall|i: int| 0 <= i < v.len() ==> candidate_ok(#[trigger] v[i], k) && v[i].1@.len() == size
    &&& distinct_forms(v)
    &&& size != 1 ==> forms_sorted(v)
    &&& size == 1 ==> v.len() == k && forall|i: int| 0 <= i < v.len() ==> (#[trigger] v[i]).1@ == single_view((i + 1) as u32)
}

/// `a` and `b` hold the same forms and trees, entry by entry.
pub open spec fn same_list(a: Seq<(String, Tree)>, b: Seq<(String, Tree)>) -> bool {
    &&& a.len() == b.len()
    &&& forall|i: int| 0 <= i < a.len() ==> (#[trigger] a[i]).0 == b[i].0 && a[i].1@ == b[i].1@
}

/// A list of child trees for one root: well formed, labelled in `1..=k`, with
/// `total` nodes together.
pub open spec fn combo_ok(c: Seq<Tree>, total: nat, k: u32) -> bool {
    &&& forall|j: int| 0 <= j < c.len() ==> (#[trigger] c[j])@.wf() && labels_within(c[j]@, k)
    &&& total_len(c) == total
}

proof fn lemma_total_len_front(t: Tree, c: Seq<Tree>)
    ensures
        total_len(seq![t] + c) == t@.len() + total_len(c),
    decreases c.len(),
{
    let s = seq![t] + c;
    if c.len() == 0 {
        assert(s =~= seq![t]);
        assert(s.drop_last() =~= Seq::<Tree>::empty());
        assert(total_len(s.drop_last()) == 0);
        assert(s.last() == t);
    } else {
        assert(s.drop_last() =~= seq![t] + c.drop_last());
        assert(s.last() == c.last());
        lemma_total_len_front(t, c.drop_last());
    }
}

fn copy_list(v: &Vec<(String, Tree)>) -> (r: Vec<(String, Tree)>)
    ensures
        r@.len() == v@.len(),
        forall|i: int| 0 <= i < r@.len() ==> (#[trigger] r@[i]).0 == v@[i].0 && r@[i].1@ == v@[i].1@,
{
    let mut r: Vec<(String, Tree)> = Vec::with_capacity(v.len());
    let mut i: usize = 0;
    while i < v.len()
        invariant
            i <= v@.len(),
            r@.len() == i,
            forall|q: int| 0 <= q < i ==> (#[trigger] r@[q]).0 == v@[q].0 && r@[q].1@ == v@[q].1@,
        decreases v@.len() - i,
    {
        let e = &v[i];
        r.push((e.0.clone(), e.1.clone()));
        i += 1;
    }
    r
}

/// Every canonical form of a tree of `size` nodes labelled in `1..=k` is the
/// form of some entry of `v`.
pub open spec fn covers_forms(v: Seq<(String, Tree)>, size: nat, k: u32) -> bool {
    forall|s: Seq<char>| #[trigger] is_form(s, size, k) ==> exists|i: int| 0 <= i < v.len() && v[i].0@ == s
}

/// Lists of trees already enumerated, by size and number of labels.
pub struct TreeCache {
    lists: HashMap<u128, Vec<(String, Tree)>>,
}

/// The key of the list for `size` nodes and `k` labels.
pub open spec fn cache_key(size: usize, k: u32) -> u128 {
    ((size as int) * 0x1_0000_0000 + (k as int)) as u128
}

/// Different sizes or label counts have different keys.
proof fn lemma_cache_key_injective(s1: usize, k1: u32, s2: usize, k2: u32)
    requires
        cache_key(s1, k1) == cache_key(s2, k2),
    ensures
        s1 == s2 && k1 == k2,
{
    let a = s1 as int;
    let b = s2 as int;
    let x = k1 as int;
    let y = k2 as int;
    assert(a * 0x1_0000_0000 + x < 0x1_0000_0000_0000_0000_0000_0000) by (nonlinear_arith)
        requires
            0 <= a <= usize::MAX,
            usize::MAX <= u64::MAX,
            0 <= x < 0x1_0000_0000,
    ;
    assert(b * 0x1_0000_0000 + y < 0x1_0000_0000_0000_0000_0000_0000) by (nonlinear_arith)
        requires
            0 <= b <= usize::MAX,
            usize::MAX <= u64::MAX,
            0 <= y < 0x1_0000_0000,
    ;
    assert(a * 0x1_0000_0000 + x == b * 0x1_0000_0000 + y);
    assert(a == b) by (nonlinear_arith)
        requires
            a * 0x1_0000_0000 + x == b * 0x1_0000_0000 + y,
            0 <= x < 0x1_0000_0000,
            0 <= y < 0x1_0000_0000,
            0 <= a,
            0 <= b,
    ;
}

fn cache_key_of(size: usize, k: u32) -> (r: u128)
    ensures
        r == cache_key(size, k),
{
    let s: u128 = size as u128;
    let l: u128 = k as u128;
    assert(s * 0x1_0000_0000 + l < 0x1_0000_0000_0000_0000_0000_0000) by (nonlinear_arith)
        requires
            s <= usize::MAX,
            usize::MAX <= u64::MAX,
            l <= u32::MAX,
    ;
    s * 0x1_0000_0000u128 + l
}

impl TreeCache {
    /// Every stored list is the list of its size and label count, and covers
    /// every canonical form of that size.
    pub closed spec fn inv(&self) -> bool {
        forall|s: usize, l: u32| #[trigger] self.has(s, l) ==> size_list_ok(self.list(s, l), s as nat, l) && covers_forms(
            self.list(s, l),
            s as nat,
            l,
        )
    }

    /// A list for `size` nodes and `k` labels is stored.
    pub closed spec fn has(&self, size: usize, k: u32) -> bool {
        self.lists@.contains_key(cache_key(size, k))
    }

    /// The stored list for `size` nodes and `k` labels.
    pub closed spec fn list(&self, size: usize, k: u32) -> Seq<(String, Tree)> {
        self.lists@[cache_key(size, k)]@
    }

    /// A stored list is the list of its size, and covers its forms.
    pub proof fn lemma_list(&self, size: usize, k: u32)
        requires
            self.inv(),
            self.has(size, k),
        ensures
            size_list_ok(self.list(size, k), size as nat, k),
            covers_forms(self.list(size, k), size as nat, k),
    {
    }

    /// An empty cache.
    pub fn new() -> (c: Self)
        ensures
            c.inv(),
            forall|s: usize, l: u32| !c.has(s, l),
    {
        TreeCache { lists: HashMap::new() }
    }

    fn lookup(&self, size: usize, k: u32) -> (r: Option<&Vec<(String, Tree)>>)
        requires
            self.inv(),
        ensures
            r is Some == self.has(size, k),
            r matches Some(v) ==> v@ == self.list(size, k) && size_list_ok(v@, size as nat, k) && covers_forms(
                v@,
                size as nat,
                k,
            ),
    {
        broadcast use vstd::std_specs::hash::group_hash_axioms;

        let key = cache_key_of(size, k);
        let r = self.lists.get(&key);
        proof {
            if r is Some {
                self.lemma_list(size, k);
            }
        }
        r
    }

    fn insert(&mut self, size: usize, k: u32, trees: Vec<(String, Tree)>)
        requires
            old(self).inv(),
            size_list_ok(trees@, size as nat, k),
            covers_forms(trees@, size as nat, k),
        ensures
            final(self).inv(),
            final(self).has(size, k),
            forall|s: usize, l: u32| old(self).has(s, l) ==> final(self).has(s, l),
            forall|s: usize, l: u32| old(self).has(s, l) && !(s == size && l == k) ==> final(self).list(s, l) == old(
                self,
            ).list(s, l),
            forall|s: usize, l: u32| final(self).has(s, l) ==> old(self).has(s, l) || (s == size && l == k),
            final(self).list(size, k) == trees@,
    {
        broadcast use vstd::std_specs::hash::group_hash_axioms;

        let key = cache_key_of(size, k);
        let ghost before = self.lists@;
        let ghost tv = trees@;
        self.lists.insert(key, trees);
        assert(self.lists@ == before.insert(key, trees));
        assert forall|s: usize, l: u32| !(s == size && l == k) implies #[trigger] self.lists@.contains_key(cache_key(s, l))
            == before.contains_key(cache_key(s, l)) && (before.contains_key(cache_key(s, l)) ==> self.lists@[cache_key(s, l)]
            == before[cache_key(s, l)]) by {
            if cache_key(s, l) == key {
                lemma_cache_key_injective(s, l, size, k);
            }
        }
        assert forall|s: usize, l: u32| #[trigger] self.has(s, l) implies size_list_ok(self.list(s, l), s as nat, l)
            && covers_forms(self.list(s, l), s as nat, l) by {
            if !(s == size && l == k) {
                assert(self.lists@.contains_key(cache_key(s, l)));
                assert(old(self).has(s, l));
            }
        }
    }
}

/// Generate all distinct (up to canonical form) rooted labeled trees of
/// exactly `size` nodes using labels from `1..=k`, with memoization.
pub fn all_trees_of_size_cached(size: usize, k: u32, cache: &mut TreeCache) -> (r: Vec<(String, Tree)>)
    requires
        old(cache).inv(),
    ensures
        final(cache).inv(),
        final(cache).has(size, k),
        forall|s: usize, l: u32| old(cache).has(s, l) ==> final(cache).has(s, l),
        forall|s: usize, l: u32| old(cache).has(s, l) ==> final(cache).list(s, l) == old(cache).list(s, l),
        forall|s: usize, l: u32| final(cache).has(s, l) ==> old(cache).has(s, l) || (l == k && s <= size),
        same_list(final(cache).list(size, k), r@),
        size_list_ok(r@, size as nat, k),
        covers_forms(r@, size as nat, k),
        forall|t: TreeView| #![trigger labels_within(t, k)] t.wf() && t.len() == size && labels_within(t, k) ==> exists|i: int|
            0 <= i < r@.len() && r@[i].0@ == tree_canon(t),
    decreases size, 1nat,
{
    match cache.lookup(size, k) {
        Some(v) => {
            let r = copy_list(v);
            proof {
                lemma_copy_keeps_list(v@, r@, size as nat, k);
                lemma_covers_trees(r@, size as nat, k);
            }
            return r;
        },
        None => {},
    }
    let result = compute_trees_of_size(size, k, cache);
    let stored = copy_list(&result);
    proof {
        lemma_copy_keeps_list(result@, stored@, size as nat, k);
        lemma_covers_trees(result@, size as nat, k);
    }
    cache.insert(size, k, stored);
    assert(same_list(cache.list(size, k), result@));
    result
}

/// A list covering the forms of a size covers every tree of that size.
proof fn lemma_covers_trees(v: Seq<(String, Tree)>, size: nat, k: u32)
    requires
        covers_forms(v, size, k),
    ensures
        forall|t: TreeView| #![trigger labels_within(t, k)] t.wf() && t.len() == size && labels_within(t, k) ==> exists|i: int|
            0 <= i < v.len() && v[i].0@ == tree_canon(t),
{
    assert forall|t: TreeView| #![trigger labels_within(t, k)] t.wf() && t.len() == size && labels_within(t, k) implies exists|i: int|
        0 <= i < v.len() && v[i].0@ == tree_canon(t) by {
        crate::forms::lemma_tree_canon_is_form(t, k);
    }
}

proof fn lemma_copy_keeps_list(v: Seq<(String, Tree)>, r: Seq<(String, Tree)>, size: nat, k: u32)
    requires
        size_list_ok(v, size, k),
        covers_forms(v, size, k),
        r.len() == v.len(),
        forall|i: int| 0 <= i < r.len() ==> (#[trigger] r[i]).0 == v[i].0 && r[i].1@ == v[i].1@,
    ensures
        size_list_ok(r, size, k),
        covers_forms(r, size, k),
{
    assert forall|i: int| 0 <= i < r.len() implies candidate_ok(#[trigger] r[i], k) && r[i].1@.len() == size by {
        assert(candidate_ok(v[i], k));
    }
    assert forall|i: int, j: int| 0 <= i < j < r.len() implies r[i].0@ != r[j].0@ by {
        assert(v[i].0@ != v[j].0@);
    }
    if size != 1 {
        assert forall|i: int, j: int| 0 <= i < j < r.len() implies text_le(r[i].0@, r[j].0@) by {
            assert(text_le(v[i].0@, v[j].0@));
        }
    } else {
        assert forall|i: int| 0 <= i < r.len() implies (#[trigger] r[i]).1@ == single_view((i + 1) as u32) by {
            assert(v[i].1@ == single_view((i + 1) as u32));
        }
    }
    assert forall|f: Seq<char>| #[trigger] is_form(f, size, k) implies exists|i: int| 0 <= i < r.len() && r[i].0@ == f by {
        let i = choose|i: int| 0 <= i < v.len() && v[i].0@ == f;
        assert(r[i].0@ == f);
    }
}

/// Some entry of `rs` has the canonical form `f`.
spec fn has_form(rs: Seq<(String, Tree)>, f: Seq<char>) -> bool {
    exists|q: int| 0 <= q < rs.len() && (#[trigger] rs[q]).0@ == f
}

/// Some entry of `pairs` is the root label `l` with child list `c`.
spec fn has_pair(pairs: Seq<(u32, usize)>, l: u32, c: int) -> bool {
    exists|q: int| 0 <= q < pairs.len() && pairs[q] == (l, c as usize)
}

/// The candidate built on a root labelled `p.0` above copies of the child list `p.1`.
fn build_candidate(combos: &Vec<Vec<Tree>>, p: &(u32, usize), size: usize, k: u32) -> (e: (String, Tree))
    requires
        1 <= p.0 <= k,
        p.1 < combos@.len(),
        2 <= size,
        combo_ok(combos@[p.1 as int]@, (size - 1) as nat, k),
    ensures
        candidate_ok(e, k),
        e.1@.len() == size,
        e.0@ == built_form(p.0, combos@[p.1 as int]),
{
    let combo = &combos[p.1];
    let tree = Tree::from_root_and_children(p.0, combo.as_slice());
    proof {
        let kids = combo@.map_values(|c: Tree| c@);
        assert forall|j: int| 0 <= j < kids.len() implies labels_within(#[trigger] kids[j], k) by {
            assert(kids[j] == combo@[j]@);
        }
        lemma_build_labels(p.0, kids, k);
    }
    let canon = canonicalize(&tree);
    (canon, tree)
}

/// The candidates of all pairs, built in parallel with rayon's
/// `par_iter().map(..).collect()`, each by `build_candidate`.
///
/// Trusted: rayon collects an indexed parallel map into a vector with one
/// result per element, in the order of the elements; each result is what
/// `build_candidate` returns for that pair.
#[verifier::external_body]
fn par_build_candidates(combos: &Vec<Vec<Tree>>, pairs: &Vec<(u32, usize)>, size: usize, k: u32) -> (r: Vec<(String, Tree)>)
    requires
        2 <= size,
        forall|c: int| 0 <= c < combos@.len() ==> combo_ok((#[trigger] combos@[c])@, (size - 1) as nat, k),
        forall|i: int| 0 <= i < pairs@.len() ==> 1 <= (#[trigger] pairs@[i]).0 <= k && pairs@[i].1 < combos@.len(),
    ensures
        r@.len() == pairs@.len(),
        forall|i: int| 0 <= i < r@.len() ==> candidate_ok(#[trigger] r@[i], k) && r@[i].1@.len() == size && r@[i].0@
            == built_form(pairs@[i].0, combos@[pairs@[i].1 as int]),
{
    pairs.par_iter().map(|p| build_candidate(combos, p, size, k)).collect()
}

/// The canonical form of the tree built on a root labelled `l` above copies of `children`.
spec fn built_form(l: u32, children: Vec<Tree>) -> Seq<char> {
    tree_canon(build_view(l, children@.map_values(|t: Tree| t@)))
}

proof fn lemma_build_len(l: u32, ts: Seq<Tree>)
    ensures
        build_view(l, ts.map_values(|t: Tree| t@)).len() == 1 + total_len(ts),
    decreases ts.len(),
{
    let vs = ts.map_values(|t: Tree| t@);
    if ts.len() > 0 {
        lemma_build_len(l, ts.drop_last());
        assert(vs.drop_last() =~= ts.drop_last().map_values(|t: Tree| t@));
        assert(vs.last() == ts.last()@);
    }
}

/// A canonical form of `size >= 2` nodes is the form of a root label above a run
/// of cached trees in the order in which the enumeration lists child runs.
proof fn lemma_target_for_form(cache: TreeCache, k: u32, size: usize, s: Seq<char>) -> (r: (u32, Seq<(String, Tree)>))
    requires
        cache.inv(),
        2 <= size,
        forall|sz: usize| 1 <= sz < size ==> cache.has(sz, k),
        is_form(s, size as nat, k),
    ensures
        1 <= r.0 <= k,
        combo_target(cache, k, r.1, (size - 1) as nat, seq![]),
        form_of(r.0, r.1.map_values(|e: (String, Tree)| e.0@)) == s,
{
    let (l, fs, ns) = choose|l: u32, fs: Seq<Seq<char>>, ns: Seq<nat>|
        #[trigger] form_step(s, size as nat, k, l, fs, ns) && forall|j: int|
            0 <= j < ns.len() && #[trigger] ns[j] < size ==> is_form(fs[j], ns[j], k);
    let (sf, sn) = lemma_sorted_step(s, size as nat, k, l, fs, ns);
    assert forall|j: int| #![trigger sn[j]] 0 <= j < sn.len() implies exists|i: int|
        0 <= i < cache.list(sn[j] as usize, k).len() && (#[trigger] cache.list(sn[j] as usize, k)[i]).0@ == sf[j] by {
        let sz = sn[j] as usize;
        assert(1 <= sn[j] < size);
        assert(sz as nat == sn[j]);
        assert(cache.has(sz, k));
        cache.lemma_list(sz, k);
        assert(is_form(sf[j], sn[j], k));
    }
    let ent = Seq::new(
        sn.len(),
        |j: int|
            {
                let v = cache.list(sn[j] as usize, k);
                v[choose|i: int| 0 <= i < v.len() && (#[trigger] v[i]).0@ == sf[j]]
            },
    );
    assert forall|j: int| 0 <= j < ent.len() implies cached(cache, k, #[trigger] ent[j]) && ent[j].0@ == sf[j]
        && ent[j].1@.len() == sn[j] by {
        let sz = sn[j] as usize;
        assert(1 <= sn[j] < size);
        assert(sz as nat == sn[j]);
        cache.lemma_list(sz, k);
        let v = cache.list(sz, k);
        let i = choose|i: int| 0 <= i < v.len() && (#[trigger] v[i]).0@ == sf[j];
        assert(ent[j] == v[i]);
        assert(v.contains(v[i]));
        assert(candidate_ok(v[i], k) && v[i].1@.len() == sz);
    }
    lemma_entries_len_seq(ent);
    assert(ent.map_values(|e: (String, Tree)| e.1@.len()) =~= sn);
    assert(ent.map_values(|e: (String, Tree)| e.0@) =~= sf);
    assert forall|a: int, b: int| #![trigger ent[a], ent[b]] 0 <= a < b < ent.len() implies text_le(ent[a].0@, ent[b].0@) by {
        assert(text_le(sf[a], sf[b]));
    }
    if ent.len() > 0 {
        lemma_text_le_empty(ent[0].0@);
    }
    (l, ent)
}

fn compute_trees_of_size(size: usize, k: u32, cache: &mut TreeCache) -> (r: Vec<(String, Tree)>)
    requires
        old(cache).inv(),
    ensures
        final(cache).inv(),
        forall|s: usize, l: u32| old(cache).has(s, l) ==> final(cache).has(s, l),
        forall|s: usize, l: u32| old(cache).has(s, l) ==> final(cache).list(s, l) == old(cache).list(s, l),
        forall|s: usize, l: u32| final(cache).has(s, l) ==> old(cache).has(s, l) || (l == k && s < size),
        size_list_ok(r@, size as nat, k),
        covers_forms(r@, size as nat, k),
    decreases size, 0nat,
{
    if size == 0 {
        return Vec::new();
    }
    if size == 1 {
        let mut result: Vec<(String, Tree)> = Vec::new();
        let mut label: u32 = 0;
        while label < k
            invariant
                label <= k,
                result@.len() == label,
                forall|i: int| 0 <= i < result@.len() ==> candidate_ok(#[trigger] result@[i], k)
                    && result@[i].1@.len() == 1 && result@[i].0@ == decimal((i + 1) as nat)
                    && result@[i].1@ == single_view((i + 1) as u32),
            decreases k - label,
        {
            label += 1;
            let tree = Tree::new_single_node(label);
            let canon = canonicalize(&tree);
            assert(canon@ == decimal(label as nat));
            result.push((canon, tree));
        }
        assert forall|i: int, j: int| 0 <= i < j < result@.len() implies result@[i].0@ != result@[j].0@ by {
            if result@[i].0@ == result@[j].0@ {
                lemma_decimal_injective((i + 1) as nat, (j + 1) as nat);
            }
        }
        assert forall|f: Seq<char>| #[trigger] is_form(f, 1, k) implies exists|i: int|
            0 <= i < result@.len() && result@[i].0@ == f by {
            let (l, fs, ns) = choose|l: u32, fs: Seq<Seq<char>>, ns: Seq<nat>|
                #[trigger] form_step(f, 1, k, l, fs, ns) && forall|j: int|
                    0 <= j < ns.len() && #[trigger] ns[j] < 1 ==> is_form(fs[j], ns[j], k);
            if ns.len() > 0 {
                crate::forms::lemma_seq_sum_elem(ns, 0);
            }
            assert(result@[l - 1].0@ == decimal(l as nat));
        }
        return result;
    }
    // Enumerate the smaller sizes first, so that the child lists can be read from the cache.
    let ghost start = *cache;
    let mut s: usize = 1;
    while s < size
        invariant
            1 <= s <= size,
            cache.inv(),
            forall|a: usize, l: u32| start.has(a, l) ==> cache.has(a, l),
            forall|a: usize, l: u32| start.has(a, l) ==> cache.list(a, l) == start.list(a, l),
            forall|a: usize, l: u32| cache.has(a, l) ==> start.has(a, l) || (l == k && a < s),
            forall|sz: usize| 1 <= sz < s ==> cache.has(sz, k),
        decreases size - s,
    {
        let _ = all_trees_of_size_cached(s, k, cache);
        s += 1;
    }
    let combos = partitions_into_subtrees_cached(size - 1, k, cache);
    let ghost frozen = *cache;
    // Every (root label, child list) pair, built in parallel.
    let mut pairs: Vec<(u32, usize)> = Vec::new();
    let mut rl: u32 = 0;
    while rl < k
        invariant
            rl <= k,
            forall|i: int| 0 <= i < pairs@.len() ==> 1 <= (#[trigger] pairs@[i]).0 <= k && pairs@[i].1 < combos@.len(),
            forall|l: u32, c: int| 1 <= l <= rl && 0 <= c < combos@.len() ==> #[trigger] has_pair(pairs@, l, c),
        decreases k - rl,
    {
        rl += 1;
        let mut ci: usize = 0;
        while ci < combos.len()
            invariant
                1 <= rl <= k,
                ci <= combos@.len(),
                forall|i: int| 0 <= i < pairs@.len() ==> 1 <= (#[trigger] pairs@[i]).0 <= k && pairs@[i].1 < combos@.len(),
                forall|l: u32, c: int| ((1 <= l < rl && 0 <= c < combos@.len()) || (l == rl && 0 <= c < ci))
                    ==> #[trigger] has_pair(pairs@, l, c),
            decreases combos@.len() - ci,
        {
            let ghost before = pairs@;
            pairs.push((rl, ci));
            proof {
                assert(pairs@[before.len() as int] == (rl, ci));
                assert forall|l: u32, c: int| ((1 <= l < rl && 0 <= c < combos@.len()) || (l == rl && 0 <= c < ci + 1))
                    implies #[trigger] has_pair(pairs@, l, c) by {
                    if !(l == rl && c == ci) {
                        assert(has_pair(before, l, c));
                        let q = choose|q: int| 0 <= q < before.len() && before[q] == (l, c as usize);
                        assert(pairs@[q] == before[q]);
                    }
                }
            }
            ci += 1;
        }
    }
    let mut result = par_build_candidates(&combos, &pairs, size, k);
    proof {
        assert forall|l: u32, c: int| #![trigger built_form(l, combos@[c])] 1 <= l <= k && 0 <= c < combos@.len() implies has_form(
            result@,
            built_form(l, combos@[c]),
        ) by {
            assert(has_pair(pairs@, l, c));
            let q = choose|q: int| 0 <= q < pairs@.len() && pairs@[q] == (l, c as usize);
            assert(result@[q].0@ == built_form(pairs@[q].0, combos@[pairs@[q].1 as int]));
        }
    }
    let ghost unsorted = result@;
    par_sort_candidates(&mut result, CandidateOrder::ByCanon);
    proof {
        assert forall|i: int| 0 <= i < result@.len() implies unsorted.contains(#[trigger] result@[i]) by {
            vstd::seq_lib::to_multiset_contains(result@, result@[i]);
            vstd::seq_lib::to_multiset_contains(unsorted, result@[i]);
            assert(result@.contains(result@[i]));
        }
        assert forall|i: int, j: int| #![trigger result@[i], result@[j]] 0 <= i < j < result@.len() implies text_le(result@[i].0@, result@[j].0@) by {
            assert(cand_order(CandidateOrder::ByCanon)(result@[i], result@[j]));
        }
    }
    let sorted = result;
    let deduped = dedup_forms(sorted);
    assert forall|i: int| 0 <= i < deduped@.len() implies candidate_ok(#[trigger] deduped@[i], k) && deduped@[i].1@.len() == size by {
        assert(sorted@.contains(deduped@[i]));
        let q = choose|q: int| 0 <= q < sorted@.len() && sorted@[q] == deduped@[i];
        assert(unsorted.contains(sorted@[q]));
    }
    proof {
        assert forall|f: Seq<char>| #[trigger] is_form(f, size as nat, k) implies exists|i: int|
            0 <= i < deduped@.len() && deduped@[i].0@ == f by {
            let (l, ent) = lemma_target_for_form(frozen, k, size, f);
            assert(has_match(combos@, ent));
            let c = choose|c: int| 0 <= c < combos@.len() && combo_matches(#[trigger] combos@[c]@, ent);
            let ts = combos@[c]@;
            let views = ts.map_values(|t: Tree| t@);
            assert(combo_ok(ts, (size - 1) as nat, k));
            lemma_build_len(l, ts);
            assert forall|j: int| 0 <= j < views.len() implies (#[trigger] views[j]).wf() by {
                assert(views[j] == ts[j]@);
            }
            crate::forms::lemma_build_canon(l, views);
            assert forall|j: int| 0 <= j < views.len() implies #[trigger] crate::forms::forms_of(views)[j] == ent.map_values(
                |e: (String, Tree)| e.0@,
            )[j] by {
                assert(views[j] == ts[j]@);
                assert(ts[j]@ == ent[j].1@);
                assert(cached(frozen, k, ent[j]));
                lemma_cached(frozen, k, ent[j]);
            }
            assert(crate::forms::forms_of(views) =~= ent.map_values(|e: (String, Tree)| e.0@));
            assert(built_form(l, combos@[c]) == f);
            assert(has_form(unsorted, f));
            let q = choose|q: int| 0 <= q < unsorted.len() && (#[trigger] unsorted[q]).0@ == f;
            vstd::seq_lib::to_multiset_contains(unsorted, unsorted[q]);
            vstd::seq_lib::to_multiset_contains(sorted@, unsorted[q]);
            assert(unsorted.contains(unsorted[q]));
            let q2 = choose|q2: int| 0 <= q2 < sorted@.len() && sorted@[q2] == unsorted[q];
            assert(exists|j: int| 0 <= j < deduped@.len() && deduped@[j].0@ == (#[trigger] sorted@[q2]).0@);
        }
    }
    deduped
}

/// Removes consecutive entries with equal canonical forms from a list sorted by
/// form, keeping the first of each run.
fn dedup_forms(v: Vec<(String, Tree)>) -> (r: Vec<(String, Tree)>)
    requires
        forms_sorted(v@),
    ensures
        forall|i: int| 0 <= i < r@.len() ==> v@.contains(#[trigger] r@[i]),
        forall|i: int| 0 <= i < v@.len() ==> exists|j: int| 0 <= j < r@.len() && r@[j].0@ == (#[trigger] v@[i]).0@,
        forms_sorted(r@),
        distinct_forms(r@),
{
    let ghost vv = v@;
    let ghost mut src: Seq<int> = seq![];
    let ghost mut cov: Seq<int> = seq![];
    let mut r: Vec<(String, Tree)> = Vec::new();
    for e in it: v
        invariant
            it.seq() == vv,
            forms_sorted(vv),
            src.len() == r@.len(),
            forall|i: int| 0 <= i < r@.len() ==> 0 <= #[trigger] src[i] < it.index() && r@[i] == vv[src[i]],
            cov.len() == it.index(),
            forall|p: int| 0 <= p < it.index() ==> 0 <= #[trigger] cov[p] < r@.len() && r@[cov[p]].0@ == vv[p].0@,
            forms_sorted(r@),
            distinct_forms(r@),
            it.index() > 0 ==> r@.len() > 0 && r@.last().0@ == vv[it.index() - 1].0@,
    {
        let ghost idx = it.index();
        let ghost before = r@;
        let keep = r.len() == 0 || !(r[r.len() - 1].0 == e.0);
        if keep {
            r.push(e);
            proof {
                src = src.push(idx);
                assert forall|i: int, j: int| #![trigger r@[i], r@[j]] 0 <= i < j < r@.len() implies text_le(r@[i].0@, r@[j].0@) && r@[i].0@ != r@[j].0@ by {
                    if j == before.len() {
                        assert(r@[i] == vv[src[i]]);
                        assert(text_le(vv[src[i]].0@, vv[idx].0@));
                        if r@[i].0@ == r@[j].0@ {
                            let l = before.len() - 1;
                            if i < l {
                                assert(text_le(before[i].0@, before[l].0@));
                            }
                            assert(text_le(vv[src[l]].0@, vv[idx].0@));
                            lemma_text_le_antisym(before[l].0@, e.0@);
                        }
                    } else {
                        assert(before[i] == r@[i] && before[j] == r@[j]);
                    }
                }
            }
        }
        proof {
            cov = cov.push(r@.len() - 1);
        }
    }
    proof {
        assert forall|i: int| 0 <= i < r@.len() implies vv.contains(#[trigger] r@[i]) by {
            assert(r@[i] == vv[src[i]]);
        }
        assert forall|p: int| 0 <= p < vv.len() implies exists|j: int| 0 <= j < r@.len() && r@[j].0@ == (#[trigger] vv[p]).0@ by {
            assert(r@[cov[p]].0@ == vv[p].0@);
        }
    }
    r
}

/// Total number of nodes of the trees of `ent`.
spec fn entries_len(ent: Seq<(String, Tree)>) -> nat
    decreases ent.len(),
{
    if ent.len() == 0 {
        0
    } else {
        entries_len(ent.drop_last()) + ent.last().1@.len()
    }
}

proof fn lemma_entries_len_front(ent: Seq<(String, Tree)>)
    requires
        ent.len() > 0,
    ensures
        entries_len(ent) == ent[0].1@.len() + entries_len(ent.drop_first()),
    decreases ent.len(),
{
    if ent.len() > 1 {
        lemma_entries_len_front(ent.drop_last());
        assert(ent.drop_last().drop_first() =~= ent.drop_first().drop_last());
        assert(ent.drop_first().last() == ent.last());
        assert(ent.drop_last()[0] == ent[0]);
        assert(entries_len(ent.drop_first()) == entries_len(ent.drop_first().drop_last()) + ent.drop_first().last().1@.len());
    } else {
        assert(ent.drop_last().len() == 0);
        assert(entries_len(ent.drop_last()) == 0);
        assert(ent.drop_first().len() == 0);
        assert(entries_len(ent.drop_first()) == 0);
        assert(ent.last() == ent[0]);
    }
}

proof fn lemma_entries_len_seq(ent: Seq<(String, Tree)>)
    ensures
        entries_len(ent) == seq_sum(ent.map_values(|e: (String, Tree)| e.1@.len())),
    decreases ent.len(),
{
    if ent.len() > 0 {
        lemma_entries_len_seq(ent.drop_last());
        assert(ent.map_values(|e: (String, Tree)| e.1@.len()).drop_last() =~= ent.drop_last().map_values(
            |e: (String, Tree)| e.1@.len(),
        ));
    }
}

/// `e` is an entry of one of the cached lists for `k` labels.
spec fn cached(cache: TreeCache, k: u32, e: (String, Tree)) -> bool {
    exists|sz: usize| cache.has(sz, k) && #[trigger] cache.list(sz, k).contains(e)
}

proof fn lemma_cached(cache: TreeCache, k: u32, e: (String, Tree))
    requires
        cache.inv(),
        cached(cache, k, e),
    ensures
        candidate_ok(e, k),
        cache.has(e.1@.len() as usize, k),
        cache.list(e.1@.len() as usize, k).contains(e),
        e.1@.len() >= 1,
{
    let sz = choose|sz: usize| cache.has(sz, k) && #[trigger] cache.list(sz, k).contains(e);
    cache.lemma_list(sz, k);
    let v = cache.list(sz, k);
    let q = choose|q: int| 0 <= q < v.len() && v[q] == e;
    assert(candidate_ok(v[q], k) && v[q].1@.len() == sz);
}

/// `ent` could be the children of one root, in the order in which the
/// enumeration lists them: cached trees with forms in text order from `min` on,
/// `total` nodes together.
spec fn combo_target(cache: TreeCache, k: u32, ent: Seq<(String, Tree)>, total: nat, min: Seq<char>) -> bool {
    &&& forall|j: int| 0 <= j < ent.len() ==> cached(cache, k, #[trigger] ent[j])
    &&& entries_len(ent) == total
    &&& forall|a: int, b: int| #![trigger ent[a], ent[b]] 0 <= a < b < ent.len() ==> text_le(ent[a].0@, ent[b].0@)
    &&& ent.len() > 0 ==> text_le(min, ent[0].0@)
}

/// The trees of `c` are those of `ent`.
spec fn combo_matches(c: Seq<Tree>, ent: Seq<(String, Tree)>) -> bool {
    &&& c.len() == ent.len()
    &&& forall|j: int| 0 <= j < c.len() ==> (#[trigger] c[j])@ == ent[j].1@
}

/// Some list in `rs` holds the trees of `ent`.
spec fn has_match(rs: Seq<Vec<Tree>>, ent: Seq<(String, Tree)>) -> bool {
    exists|c: int| 0 <= c < rs.len() && combo_matches(#[trigger] rs[c]@, ent)
}

proof fn lemma_match_grows(before: Seq<Vec<Tree>>, after: Seq<Vec<Tree>>, ent: Seq<(String, Tree)>)
    requires
        before.len() <= after.len(),
        forall|q: int| 0 <= q < before.len() ==> after[q] == before[q],
        has_match(before, ent),
    ensures
        has_match(after, ent),
{
    let c = choose|c: int| 0 <= c < before.len() && combo_matches(#[trigger] before[c]@, ent);
    assert(after[c] == before[c]);
}

proof fn lemma_empty_target(cache: TreeCache, k: u32, ent: Seq<(String, Tree)>, min: Seq<char>)
    requires
        cache.inv(),
        combo_target(cache, k, ent, 0, min),
    ensures
        ent.len() == 0,
{
    if ent.len() > 0 {
        lemma_cached(cache, k, ent.last());
        assert(cached(cache, k, ent[ent.len() - 1]));
    }
}

proof fn lemma_text_le_empty(a: Seq<char>)
    ensures
        text_le(seq![], a),
{
    assert(vstd::utf8::encode_utf8(Seq::<char>::empty()) =~= Seq::<u8>::empty());
}

/// `res` is the tree with view `t` followed by the trees of `sub`.
spec fn prepended(res: Seq<Tree>, t: TreeView, sub: Seq<Tree>) -> bool {
    &&& res.len() == sub.len() + 1
    &&& res[0]@ == t
    &&& forall|m: int| 0 <= m < sub.len() ==> #[trigger] res[m + 1] == sub[m]
}

/// Generate all ordered lists of subtrees (sorted by canonical form) summing to `remaining`.
fn partitions_into_subtrees_cached(remaining: usize, k: u32, cache: &TreeCache) -> (r: Vec<Vec<Tree>>)
    requires
        cache.inv(),
        remaining < usize::MAX,
        forall|sz: usize| 1 <= sz <= remaining ==> cache.has(sz, k),
    ensures
        forall|c: int| 0 <= c < r@.len() ==> combo_ok((#[trigger] r@[c])@, remaining as nat, k),
        forall|ent: Seq<(String, Tree)>| #[trigger] combo_target(*cache, k, ent, remaining as nat, seq![]) ==> has_match(
            r@,
            ent,
        ),
{
    let mut result: Vec<Vec<Tree>> = Vec::new();
    if remaining == 0 {
        result.push(Vec::new());
        assert(combo_ok(result@[0]@, 0, k));
        proof {
            assert forall|ent: Seq<(String, Tree)>| #[trigger] combo_target(*cache, k, ent, 0, seq![]) implies has_match(
                result@,
                ent,
            ) by {
                lemma_empty_target(*cache, k, ent, seq![]);
                assert(combo_matches(result@[0]@, ent));
            }
        }
        return result;
    }
    let empty = String::new();
    let min = empty.as_str();
    assert(min@ == Seq::<char>::empty());
    gen_combos_cached(remaining, k, min, &mut result, cache);
    result
}

fn gen_combos_cached(remaining: usize, k: u32, min_canon: &str, result: &mut Vec<Vec<Tree>>, cache: &TreeCache)
    requires
        cache.inv(),
        remaining < usize::MAX,
        forall|sz: usize| 1 <= sz <= remaining ==> cache.has(sz, k),
        forall|c: int| 0 <= c < old(result)@.len() ==> combo_ok((#[trigger] old(result)@[c])@, remaining as nat, k),
    ensures
        forall|c: int| 0 <= c < final(result)@.len() ==> combo_ok((#[trigger] final(result)@[c])@, remaining as nat, k),
        final(result)@.len() >= old(result)@.len(),
        forall|q: int| 0 <= q < old(result)@.len() ==> #[trigger] final(result)@[q] == old(result)@[q],
        forall|ent: Seq<(String, Tree)>| #[trigger] combo_target(*cache, k, ent, remaining as nat, min_canon@) ==> has_match(
            final(result)@,
            ent,
        ),
    decreases remaining,
{
    let ghost r0 = result@;
    if remaining == 0 {
        result.push(Vec::new());
        assert(combo_ok(result@[result@.len() - 1]@, 0, k));
        proof {
            assert forall|ent: Seq<(String, Tree)>| #[trigger] combo_target(*cache, k, ent, 0, min_canon@) implies has_match(
                result@,
                ent,
            ) by {
                lemma_empty_target(*cache, k, ent, min_canon@);
                assert(combo_matches(result@[result@.len() - 1]@, ent));
            }
        }
        return;
    }
    proof {
        assert forall|ent: Seq<(String, Tree)>| #[trigger] combo_target(*cache, k, ent, remaining as nat, min_canon@)
            && ent.len() > 0 && ent[0].1@.len() < 1 implies has_match(result@, ent) by {
            assert(cached(*cache, k, ent[0]));
            lemma_cached(*cache, k, ent[0]);
        }
    }
    let mut sz: usize = 1;
    while sz <= remaining
        invariant
            1 <= sz <= remaining + 1,
            remaining < usize::MAX,
            cache.inv(),
            forall|s: usize| 1 <= s <= remaining ==> cache.has(s, k),
            forall|c: int| 0 <= c < result@.len() ==> combo_ok((#[trigger] result@[c])@, remaining as nat, k),
            result@.len() >= r0.len(),
            forall|q: int| 0 <= q < r0.len() ==> #[trigger] result@[q] == r0[q],
            forall|ent: Seq<(String, Tree)>| #[trigger] combo_target(*cache, k, ent, remaining as nat, min_canon@)
                && ent.len() > 0 && ent[0].1@.len() < sz ==> has_match(result@, ent),
        decreases remaining + 1 - sz,
    {
        match cache.lookup(sz, k) {
            Some(subtrees) => {
                let mut j: usize = 0;
                while j < subtrees.len()
                    invariant
                        1 <= sz <= remaining,
                        remaining < usize::MAX,
                        cache.inv(),
                        forall|s: usize| 1 <= s <= remaining ==> cache.has(s, k),
                        size_list_ok(subtrees@, sz as nat, k),
                        subtrees@ == cache.list(sz, k),
                        j <= subtrees@.len(),
                        forall|c: int| 0 <= c < result@.len() ==> combo_ok((#[trigger] result@[c])@, remaining as nat, k),
                        result@.len() >= r0.len(),
                        forall|q: int| 0 <= q < r0.len() ==> #[trigger] result@[q] == r0[q],
                        forall|ent: Seq<(String, Tree)>| #[trigger] combo_target(*cache, k, ent, remaining as nat, min_canon@)
                            && ent.len() > 0 && (ent[0].1@.len() < sz || (ent[0].1@.len() == sz && exists|q: int|
                            0 <= q < j && #[trigger] subtrees@[q] == ent[0])) ==> has_match(result@, ent),
                    decreases subtrees@.len() - j,
                {
                    let entry = &subtrees[j];
                    assert(candidate_ok(subtrees@[j as int], k));
                    let ghost rb = result@;
                    if !text_less(entry.0.as_str(), min_canon) {
                        let mut sub_combos: Vec<Vec<Tree>> = Vec::new();
                        gen_combos_cached(remaining - sz, k, entry.0.as_str(), &mut sub_combos, cache);
                        let ghost subs = sub_combos@;
                        for combo in it: sub_combos
                            invariant
                                it.seq() == subs,
                                1 <= sz <= remaining,
                                *entry == subtrees@[j as int],
                                candidate_ok(*entry, k),
                                entry.1@.len() == sz,
                                forall|c: int| 0 <= c < subs.len() ==> combo_ok((#[trigger] subs[c])@, (remaining - sz) as nat, k),
                                forall|c: int| 0 <= c < result@.len() ==> combo_ok((#[trigger] result@[c])@, remaining as nat, k),
                                result@.len() == rb.len() + it.index(),
                                forall|q: int| 0 <= q < rb.len() ==> #[trigger] result@[q] == rb[q],
                                forall|c: int| 0 <= c < it.index() ==> prepended(
                                    #[trigger] result@[rb.len() + c]@,
                                    entry.1@,
                                    subs[c]@,
                                ),
                        {
                            let ghost cv = combo@;
                            assert(combo_ok(cv, (remaining - sz) as nat, k));
                            let mut combo = combo;
                            let first = entry.1.clone();
                            let ghost fv = first;
                            combo.insert(0, first);
                            proof {
                                assert(combo@ =~= seq![fv] + cv);
                                lemma_total_len_front(fv, cv);
                                assert forall|q: int| 0 <= q < combo@.len() implies (#[trigger] combo@[q])@.wf() && labels_within(combo@[q]@, k) by {
                                    if q > 0 {
                                        assert(combo@[q] == cv[q - 1]);
                                    }
                                }
                                assert(prepended(combo@, entry.1@, cv));
                            }
                            result.push(combo);
                        }
                        proof {
                            assert forall|ent: Seq<(String, Tree)>| #[trigger] combo_target(*cache, k, ent, remaining as nat, min_canon@)
                                && ent.len() > 0 && (ent[0].1@.len() < sz || (ent[0].1@.len() == sz && exists|q: int|
                                0 <= q < j + 1 && #[trigger] subtrees@[q] == ent[0])) implies has_match(result@, ent) by {
                                if ent[0].1@.len() < sz || (ent[0].1@.len() == sz && exists|q: int|
                                    0 <= q < j && #[trigger] subtrees@[q] == ent[0]) {
                                    lemma_match_grows(rb, result@, ent);
                                } else {
                                    let q = choose|q: int| 0 <= q < j + 1 && #[trigger] subtrees@[q] == ent[0];
                                    assert(q == j);
                                    let rest = ent.drop_first();
                                    lemma_entries_len_front(ent);
                                    assert forall|x: int| 0 <= x < rest.len() implies cached(*cache, k, #[trigger] rest[x]) by {
                                        assert(rest[x] == ent[x + 1]);
                                    }
                                    assert forall|x: int, y: int| #![trigger rest[x], rest[y]] 0 <= x < y < rest.len() implies text_le(
                                        rest[x].0@,
                                        rest[y].0@,
                                    ) by {
                                        assert(rest[x] == ent[x + 1] && rest[y] == ent[y + 1]);
                                    }
                                    if rest.len() > 0 {
                                        assert(rest[0] == ent[1]);
                                        assert(text_le(ent[0].0@, ent[1].0@));
                                    }
                                    assert(combo_target(*cache, k, rest, (remaining - sz) as nat, entry.0@));
                                    let c = choose|c: int| 0 <= c < subs.len() && combo_matches(#[trigger] subs[c]@, rest);
                                    let res = result@[rb.len() + c]@;
                                    assert(prepended(res, entry.1@, subs[c]@));
                                    assert forall|x: int| 0 <= x < res.len() implies (#[trigger] res[x])@ == ent[x].1@ by {
                                        if x > 0 {
                                            assert(res[(x - 1) + 1] == subs[c]@[x - 1]);
                                            assert(rest[x - 1] == ent[x]);
                                        }
                                    }
                                    assert(combo_matches(result@[rb.len() + c]@, ent));
                                }
                            }
                        }
                    } else {
                        proof {
                            assert forall|ent: Seq<(String, Tree)>| #[trigger] combo_target(*cache, k, ent, remaining as nat, min_canon@)
                                && ent.len() > 0 && (ent[0].1@.len() < sz || (ent[0].1@.len() == sz && exists|q: int|
                                0 <= q < j + 1 && #[trigger] subtrees@[q] == ent[0])) implies has_match(result@, ent) by {
                                if !(ent[0].1@.len() < sz || (ent[0].1@.len() == sz && exists|q: int|
                                    0 <= q < j && #[trigger] subtrees@[q] == ent[0])) {
                                    let q = choose|q: int| 0 <= q < j + 1 && #[trigger] subtrees@[q] == ent[0];
                                    assert(q == j);
                                    lemma_text_le_antisym(min_canon@, entry.0@);
                                }
                            }
                        }
                    }
                    j += 1;
                }
                proof {
                    assert forall|ent: Seq<(String, Tree)>| #[trigger] combo_target(*cache, k, ent, remaining as nat, min_canon@)
                        && ent.len() > 0 && ent[0].1@.len() < sz + 1 implies has_match(result@, ent) by {
                        if ent[0].1@.len() == sz {
                            assert(cached(*cache, k, ent[0]));
                            lemma_cached(*cache, k, ent[0]);
                            let q = choose|q: int| 0 <= q < subtrees@.len() && subtrees@[q] == ent[0];
                            assert(subtrees@[q] == ent[0]);
                        }
                    }
                }
            },
            None => {
                assert(false);
            },
        }
        sz += 1;
    }
    proof {
        assert forall|ent: Seq<(String, Tree)>| #[trigger] combo_target(*cache, k, ent, remaining as nat, min_canon@)
            implies has_match(result@, ent) by {
            if ent.len() == 0 {
                assert(entries_len(ent) == 0);
            } else {
                lemma_entries_len_front(ent);
            }
        }
    }
}

/// A candidate of `1..=max_size` nodes.
pub open spec fn candidate_upto(c: (String, Tree), k: u32, max_size: nat) -> bool {
    &&& candidate_ok(c, k)
    &&& 1 <= c.1@.len() <= max_size
}

/// The trees of sizes `1..=max_size`, size by size.
fn trees_up_to(max_size: usize, k: u32, cache: &mut TreeCache) -> (r: Vec<(String, Tree)>)
    requires
        old(cache).inv(),
    ensures
        final(cache).inv(),
        forall|s: usize, l: u32| old(cache).has(s, l) ==> final(cache).has(s, l),
        forall|i: int| 0 <= i < r@.len() ==> candidate_upto(#[trigger] r@[i], k, max_size as nat),
        forall|t: TreeView| #![trigger labels_within(t, k)] t.wf() && labels_within(t, k) && 1 <= t.len() <= max_size
            ==> exists|i: int| 0 <= i < r@.len() && r@[i].0@ == tree_canon(t),
        distinct_forms(r@),
{
    let ghost start = *cache;
    let mut result: Vec<(String, Tree)> = Vec::new();
    let mut sz: usize = 0;
    while sz < max_size
        invariant
            sz <= max_size,
            cache.inv(),
            forall|s: usize, l: u32| start.has(s, l) ==> cache.has(s, l),
            forall|i: int| 0 <= i < result@.len() ==> candidate_upto(#[trigger] result@[i], k, max_size as nat),
            forall|t: TreeView| #![trigger labels_within(t, k)] t.wf() && labels_within(t, k) && 1 <= t.len() <= sz
                ==> exists|i: int| 0 <= i < result@.len() && result@[i].0@ == tree_canon(t),
            distinct_forms(result@),
            forall|i: int| 0 <= i < result@.len() ==> (#[trigger] result@[i]).1@.len() <= sz,
        decreases max_size - sz,
    {
        sz += 1;
        let mut part = all_trees_of_size_cached(sz, k, cache);
        let ghost before = result@;
        let ghost added = part@;
        result.append(&mut part);
        assert forall|i: int| 0 <= i < result@.len() implies candidate_upto(#[trigger] result@[i], k, max_size as nat) by {
            if i >= before.len() {
                assert(result@[i] == added[i - before.len()]);
                assert(candidate_ok(added[i - before.len()], k));
            } else {
                assert(result@[i] == before[i]);
            }
        }
        assert forall|i: int| 0 <= i < result@.len() implies (#[trigger] result@[i]).1@.len() <= sz by {
            if i >= before.len() {
                assert(result@[i] == added[i - before.len()]);
            } else {
                assert(result@[i] == before[i]);
            }
        }
        assert forall|i: int, j: int| #![trigger result@[i], result@[j]] 0 <= i < j < result@.len() implies result@[i].0@
            != result@[j].0@ by {
            if j < before.len() {
                assert(result@[i] == before[i] && result@[j] == before[j]);
            } else if i >= before.len() {
                assert(result@[i] == added[i - before.len()] && result@[j] == added[j - before.len()]);
            } else {
                assert(result@[i] == before[i] && result@[j] == added[j - before.len()]);
                assert(result@[i].1@.len() < sz);
                assert(candidate_ok(result@[i], k) && candidate_ok(result@[j], k));
                if result@[i].0@ == result@[j].0@ {
                    crate::form_unique::lemma_same_form_size(result@[i].1@, result@[j].1@);
                }
            }
        }
        assert forall|t: TreeView| #![trigger labels_within(t, k)] t.wf() && labels_within(t, k) && 1 <= t.len() <= sz
            implies exists|i: int| 0 <= i < result@.len() && result@[i].0@ == tree_canon(t) by {
            if t.len() == sz {
                let q = choose|q: int| 0 <= q < added.len() && added[q].0@ == tree_canon(t);
                assert(result@[before.len() + q] == added[q]);
            } else {
                let q = choose|q: int| 0 <= q < before.len() && before[q].0@ == tree_canon(t);
                assert(result@[q] == before[q]);
            }
        }
    }
    result
}

/// A rearrangement of a list with distinct forms has distinct forms.
proof fn lemma_perm_distinct_forms(a: Seq<(String, Tree)>, b: Seq<(String, Tree)>)
    requires
        distinct_forms(a),
        a.to_multiset() == b.to_multiset(),
    ensures
        distinct_forms(b),
{
    assert forall|i: int, j: int| 0 <= i < a.len() && 0 <= j < a.len() && i != j implies a[i] != a[j] by {
        if i < j {
            assert(a[i].0@ != a[j].0@);
        } else {
            assert(a[j].0@ != a[i].0@);
        }
    }
    assert(a.no_duplicates());
    a.lemma_multiset_has_no_duplicates();
    b.lemma_multiset_has_no_duplicates_conv();
    assert forall|i: int, j: int| #![trigger b[i], b[j]] 0 <= i < j < b.len() implies b[i].0@ != b[j].0@ by {
        vstd::seq_lib::to_multiset_contains(b, b[i]);
        vstd::seq_lib::to_multiset_contains(b, b[j]);
        vstd::seq_lib::to_multiset_contains(a, b[i]);
        vstd::seq_lib::to_multiset_contains(a, b[j]);
        assert(b.contains(b[i]) && b.contains(b[j]));
        let q1 = choose|q: int| 0 <= q < a.len() && a[q] == b[i];
        let q2 = choose|q: int| 0 <= q < a.len() && a[q] == b[j];
        if q1 < q2 {
            assert(a[q1].0@ != a[q2].0@);
        } else if q2 < q1 {
            assert(a[q2].0@ != a[q1].0@);
        }
    }
}

/// The candidates of sizes `1..=max_size` sorted in `order`.
fn sorted_trees_up_to(max_size: usize, k: u32, cache: &mut TreeCache, order: CandidateOrder) -> (r: Vec<(String, Tree)>)
    requires
        old(cache).inv(),
    ensures
        final(cache).inv(),
        forall|s: usize, l: u32| old(cache).has(s, l) ==> final(cache).has(s, l),
        forall|i: int| 0 <= i < r@.len() ==> candidate_upto(#[trigger] r@[i], k, max_size as nat),
        forall|t: TreeView| #![trigger labels_within(t, k)] t.wf() && labels_within(t, k) && 1 <= t.len() <= max_size
            ==> exists|i: int| 0 <= i < r@.len() && r@[i].0@ == tree_canon(t),
        sorted_by(r@, cand_order(order)),
        distinct_forms(r@),
{
    let mut result = trees_up_to(max_size, k, cache);
    let ghost unsorted = result@;
    par_sort_candidates(&mut result, order);
    proof {
        lemma_perm_distinct_forms(unsorted, result@);
    }
    assert forall|i: int| 0 <= i < result@.len() implies candidate_upto(#[trigger] result@[i], k, max_size as nat) by {
        vstd::seq_lib::to_multiset_contains(result@, result@[i]);
        vstd::seq_lib::to_multiset_contains(unsorted, result@[i]);
        assert(result@.contains(result@[i]));
        let q = choose|q: int| 0 <= q < unsorted.len() && unsorted[q] == result@[i];
    }
    assert forall|t: TreeView| #![trigger labels_within(t, k)] t.wf() && labels_within(t, k) && 1 <= t.len() <= max_size
        implies exists|i: int| 0 <= i < result@.len() && result@[i].0@ == tree_canon(t) by {
        let q = choose|q: int| 0 <= q < unsorted.len() && unsorted[q].0@ == tree_canon(t);
        vstd::seq_lib::to_multiset_contains(unsorted, unsorted[q]);
        vstd::seq_lib::to_multiset_contains(result@, unsorted[q]);
        assert(unsorted.contains(unsorted[q]));
        let q2 = choose|q2: int| 0 <= q2 < result@.len() && result@[q2] == unsorted[q];
    }
    result
}

/// Get all trees up to `max_size` nodes, largest-first.
fn all_trees_up_to_size_largest_first(max_size: usize, k: u32, cache: &mut TreeCache) -> (r: Vec<(String, Tree)>)
    requires
        old(cache).inv(),
    ensures
        final(cache).inv(),
        forall|s: usize, l: u32| old(cache).has(s, l) ==> final(cache).has(s, l),
        forall|i: int| 0 <= i < r@.len() ==> candidate_upto(#[trigger] r@[i], k, max_size as nat),
        forall|t: TreeView| #![trigger labels_within(t, k)] t.wf() && labels_within(t, k) && 1 <= t.len() <= max_size
            ==> exists|i: int| 0 <= i < r@.len() && r@[i].0@ == tree_canon(t),
        sorted_by(r@, cand_order(CandidateOrder::LargestFirst)),
        distinct_forms(r@),
{
    sorted_trees_up_to(max_size, k, cache, CandidateOrder::LargestFirst)
}

/// Get all trees up to `max_size` nodes, smallest-first.
fn all_trees_up_to_size_smallest_first(max_size: usize, k: u32, cache: &mut TreeCache) -> (r: Vec<(String, Tree)>)
    requires
        old(cache).inv(),
    ensures
        final(cache).inv(),
        forall|s: usize, l: u32| old(cache).has(s, l) ==> final(cache).has(s, l),
        forall|i: int| 0 <= i < r@.len() ==> candidate_upto(#[trigger] r@[i], k, max_size as nat),
        forall|t: TreeView| #![trigger labels_within(t, k)] t.wf() && labels_within(t, k) && 1 <= t.len() <= max_size
            ==> exists|i: int| 0 <= i < r@.len() && r@[i].0@ == tree_canon(t),
        sorted_by(r@, cand_order(CandidateOrder::SmallestFirst)),
        distinct_forms(r@),
{
    sorted_trees_up_to(max_size, k, cache, CandidateOrder::SmallestFirst)
}

/// How to order candidate trees for selection.
#[derive(Debug, Clone, Copy, PartialEq, Eq, Structural)]
pub enum SelectionStrategy {
    /// Pick the smallest valid tree first (canonical order within each size).
    SmallestFirst,
    /// Pick the largest valid tree first (largest trees used as early as possible).
    LargestFirst,
    /// Pick a uniformly random valid tree at each position.
    Random,
}

/// One step of the xorshift64 generator.
pub open spec fn xorshift(x: u64) -> u64 {
    let a = x ^ (x << 13u64);
    let b = a ^ (a >> 7u64);
    b ^ (b << 17u64)
}

/// A step of the generator never reaches the state zero from another state.
pub proof fn lemma_xorshift_nonzero(x: u64)
    requires
        x != 0,
    ensures
        xorshift(x) != 0,
{
    let a = x ^ (x << 13u64);
    let b = a ^ (a >> 7u64);
    assert(x != 0 ==> (x ^ (x << 13u64)) != 0) by (bit_vector);
    assert(a != 0 ==> (a ^ (a >> 7u64)) != 0) by (bit_vector);
    assert(b != 0 ==> (b ^ (b << 17u64)) != 0) by (bit_vector);
}

/// Minimal xorshift64 RNG — no external dependency.
pub struct Rng(u64);

impl View for Rng {
    type V = u64;

    /// The generator's state.
    closed spec fn view(&self) -> u64 {
        self.0
    }
}

impl Rng {
    /// The state is never zero, the one fixed point of a step.
    #[verifier::type_invariant]
    spec fn nonzero(self) -> bool {
        self.0 != 0
    }

    pub fn new(seed: u64) -> (r: Self)
        ensures
            r@ == if seed == 0 {
                0x123456789abcdef1u64
            } else {
                seed
            },
            r@ != 0,
    {
        // Ensure the state is never zero.
        Rng(
            if seed == 0 {
                0x123456789abcdef1
            } else {
                seed
            },
        )
    }

    pub fn next_u64(&mut self) -> (r: u64)
        ensures
            r == xorshift(old(self)@),
            final(self)@ == r,
            r != 0,
    {
        proof {
            use_type_invariant(&*self);
            lemma_xorshift_nonzero(self.0);
        }
        let x = self.0;
        let a = x ^ (x << 13u64);
        let b = a ^ (a >> 7u64);
        let c = b ^ (b << 17u64);
        self.0 = c;
        c
    }

    /// Uniform random index in `0..n`.
    pub fn next_usize(&mut self, n: usize) -> (r: usize)
        requires
            n > 0,
        ensures
            final(self)@ == xorshift(old(self)@),
            r == xorshift(old(self)@) % (n as u64),
            r < n,
    {
        (self.next_u64() % n as u64) as usize
    }
}

/// Result of a sequence generation step.
pub struct SequenceEntry {
    pub index: usize,
    pub tree: Tree,
    pub canonical: String,
    /// Precomputed fingerprint for the post-acceptance sweep and future checks.
    pub fingerprint: TreeFingerprint,
}

#[verifier::external_type_specification]
#[verifier::external_body]
pub struct ExSystemTime(std::time::SystemTime);

#[verifier::external_type_specification]
#[verifier::external_body]
pub struct ExSystemTimeError(std::time::SystemTimeError);

/// `std::time::SystemTime::now`: the current reading of the system clock.
/// Nothing is claimed of the reading.
#[verifier::external_body]
fn system_now() -> std::time::SystemTime {
    std::time::SystemTime::now()
}

/// `SystemTime::duration_since` with `UNIX_EPOCH`: the time elapsed since the
/// Unix epoch, or an error when the reading lies before it. Nothing is claimed
/// of which comes back.
#[verifier::external_body]
fn since_unix_epoch(t: &std::time::SystemTime) -> Result<std::time::Duration, std::time::SystemTimeError> {
    t.duration_since(std::time::UNIX_EPOCH)
}

/// `Duration::as_nanos`: the whole nanoseconds of the duration. Nothing is
/// claimed of the number, as the duration itself is opaque here.
#[verifier::external_body]
fn duration_nanos(d: &std::time::Duration) -> u128 {
    d.as_nanos()
}

/// The seed mixed from a clock reading: the reading, or `0xdeadbeef` when there
/// is none, times `0x9e3779b97f4a7c15`, wrapping.
pub open spec fn clock_seed(reading: Option<u64>) -> u64 {
    vstd::wrapping::u64_specs::wrapping_mul(
        match reading {
            Some(t) => t,
            None => 0xdeadbeefu64,
        },
        0x9e3779b97f4a7c15u64,
    )
}

/// A seed mixed from a clock reading in nanoseconds (its low 64 bits), or from
/// a fixed value when the clock could not be read.
pub fn mix_clock_seed(reading: Option<u64>) -> (s: u64)
    ensures
        s == clock_seed(reading),
{
    let t: u64 = match reading {
        Some(t) => t,
        None => 0xdeadbeef,
    };
    t.wrapping_mul(0x9e3779b97f4a7c15)
}

/// The seed of the random strategy: the given one, or else one mixed from the
/// nanoseconds of the system clock by `mix_clock_seed`.
pub fn resolve_seed(seed: Option<u64>) -> (s: u64)
    ensures
        seed matches Some(v) ==> s == v,
        seed is None ==> exists|reading: Option<u64>| s == #[trigger] clock_seed(reading),
{
    match seed {
        Some(v) => v,
        None => {
            let now = system_now();
            let reading: Option<u64> = match since_unix_epoch(&now) {
                Ok(d) => Some(#[verifier::truncate] (duration_nanos(&d) as u64)),
                Err(_) => None,
            };
            mix_clock_seed(reading)
        },
    }
}

/// Number of unset flags among the first `n`.
/// Whether a rejection flag leaves its candidate live.
fn is_live(r: &bool) -> (b: bool)
    ensures
        b == !*r,
{
    !*r
}

/// Counts the live flags in parallel with rayon's `par_iter().filter(..).count()`.
///
/// Trusted: rayon's `count` is the number of elements that the filter keeps,
/// and the filter keeps exactly the flags that are unset.
#[verifier::external_body]
fn par_count_live(rejected: &Vec<bool>) -> (c: usize)
    ensures
        c == live_in(rejected@, rejected@.len() as int),
{
    rejected.par_iter().filter(|r| is_live(r)).count()
}

/// Finds the first live flag with rayon's `position_first`.
///
/// Trusted: rayon documents that `position_first` returns the index of the
/// sequentially first element that matches, or `None` when none does.
#[verifier::external_body]
fn par_first_live(rejected: &Vec<bool>) -> (r: Option<usize>)
    ensures
        r matches Some(i) ==> i < rejected@.len() && !rejected@[i as int] && forall|j: int| 0 <= j < i ==> #[trigger] rejected@[j],
        r is None ==> forall|j: int| 0 <= j < rejected@.len() ==> #[trigger] rejected@[j],
{
    rejected.par_iter().position_first(|r| is_live(r))
}

spec fn live_in(rej: Seq<bool>, n: int) -> nat
    decreases n,
{
    if n <= 0 {
        0
    } else {
        live_in(rej, n - 1) + if rej[n - 1] {
            0nat
        } else {
            1nat
        }
    }
}

/// Number of flags among the first `n` that are set in `after` but not in `before`.
spec fn newly_set(before: Seq<bool>, after: Seq<bool>, n: int) -> nat
    decreases n,
{
    if n <= 0 {
        0
    } else {
        newly_set(before, after, n - 1) + if after[n - 1] && !before[n - 1] {
            1nat
        } else {
            0nat
        }
    }
}

/// Flags only ever get set: the newly set ones are the drop in live ones.
proof fn lemma_newly_set_live(before: Seq<bool>, after: Seq<bool>, n: int)
    requires
        0 <= n <= before.len(),
        after.len() == before.len(),
        forall|i: int| 0 <= i < before.len() && #[trigger] before[i] ==> after[i],
    ensures
        live_in(after, n) <= live_in(before, n),
        newly_set(before, after, n) == live_in(before, n) - live_in(after, n),
    decreases n,
{
    if n > 0 {
        lemma_newly_set_live(before, after, n - 1);
        if before[n - 1] {
            assert(after[n - 1]);
        }
    }
}

/// Sets `flag` when it is unset, the fingerprint check passes and the accepted
/// tree embeds into the candidate.
fn sweep_flag(flag: &mut bool, accepted_tree: &Tree, accepted_fp: &TreeFingerprint, cand: &(String, Tree), cand_fp: &TreeFingerprint)
    requires
        accepted_tree@.wf(),
        cand.1@.wf(),
        accepted_tree@.len() > cand.1@.len() || label_table_fits(accepted_tree@, cand.1@),
    ensures
        *final(flag) == (*old(flag) || (TreeFingerprint::compatible_spec(*accepted_fp, *cand_fp) && embeds_spec(
            accepted_tree@,
            cand.1@,
        ))),
{
    if !*flag {
        if TreeFingerprint::compatible(accepted_fp, cand_fp) {
            if embeds(accepted_tree, &cand.1) {
                *flag = true;
            }
        }
    }
}

/// The post-acceptance sweep over all candidates, in parallel with rayon's
/// `par_iter_mut().zip(..).zip(..).for_each(..)`, each flag by `sweep_flag`.
///
/// Trusted: rayon's zipped indexed iterators pair the `i`-th flag with the
/// `i`-th candidate and fingerprint, and `for_each` calls the closure once on
/// every such triple; each flag ends as `sweep_flag` leaves it.
#[verifier::external_body]
fn par_sweep(
    rejected: &mut Vec<bool>,
    entries: &Vec<(String, Tree)>,
    fps: &Vec<TreeFingerprint>,
    accepted_tree: &Tree,
    accepted_fp: &TreeFingerprint,
)
    requires
        old(rejected)@.len() == entries@.len(),
        fps@.len() == entries@.len(),
        accepted_tree@.wf(),
        forall|i: int| 0 <= i < entries@.len() ==> (#[trigger] entries@[i]).1@.wf() && (accepted_tree@.len()
            > entries@[i].1@.len() || label_table_fits(accepted_tree@, entries@[i].1@)),
    ensures
        final(rejected)@.len() == old(rejected)@.len(),
        forall|i: int| 0 <= i < final(rejected)@.len() ==> #[trigger] final(rejected)@[i] == (old(rejected)@[i] || (
        TreeFingerprint::compatible_spec(*accepted_fp, fps@[i]) && embeds_spec(accepted_tree@, entries@[i].1@))),
{
    rejected.par_iter_mut().zip(entries.par_iter()).zip(fps.par_iter()).for_each(
        |((flag, cand), cand_fp)| sweep_flag(flag, accepted_tree, accepted_fp, cand, cand_fp),
    );
}

proof fn lemma_live_prefix(a1: Seq<bool>, a2: Seq<bool>, n: int)
    requires
        forall|j: int| 0 <= j < n ==> a1[j] == a2[j],
    ensures
        live_in(a1, n) == live_in(a2, n),
        live_in(a1, n) <= if n < 0 { 0 } else { n },
    decreases n,
{
    if n > 0 {
        lemma_live_prefix(a1, a2, n - 1);
    }
}

/// Labels below 32 and at most `i32::MAX` nodes: the label table of `embeds` suffices.
proof fn lemma_table_fits(a: TreeView, b: TreeView, k: u32)
    requires
        labels_within(a, k),
        labels_within(b, k),
        k < 32,
        b.len() <= i32::MAX,
    ensures
        label_table_fits(a, b),
{
    assert forall|q: int| 0 <= q < b.len() implies #[trigger] b.label(q) < 32 by {}
    assert forall|q: int| 0 <= q < a.len() && #[trigger] a.label(q) >= 32 implies exists|l: u32|
        l < 32 && #[trigger] label_count(a, q, l) > label_count(b, b.len() as int, l) by {}
}

/// A strategy-sorted list of candidate trees with pre-stored fingerprints and a
/// permanent rejection flag per entry.
struct CandidatePool {
    /// Strategy-sorted candidates: (canonical_form, tree).
    entries: Vec<(String, Tree)>,
    /// Pre-stored fingerprint for each entry (parallel flat array).
    fingerprints: Vec<TreeFingerprint>,
    /// Permanent rejection flag per entry.
    /// `true` ⟹ this candidate is banned for all future positions.
    rejected: Vec<bool>,
}

impl CandidatePool {
    /// The three arrays run in parallel and each fingerprint describes its tree.
    spec fn ok(&self) -> bool {
        &&& self.fingerprints@.len() == self.entries@.len()
        &&& self.rejected@.len() == self.entries@.len()
        &&& forall|i: int| 0 <= i < self.entries@.len() ==> (#[trigger] self.fingerprints@[i]).describes(
            self.entries@[i].1@,
        )
    }

    /// Build a pool from a strategy-sorted candidate list, with every entry live.
    fn new(sorted: Vec<(String, Tree)>) -> (p: Self)
        ensures
            p.ok(),
            p.entries@ == sorted@,
            forall|i: int| 0 <= i < p.rejected@.len() ==> !#[trigger] p.rejected@[i],
    {
        let n = sorted.len();
        let fingerprints = par_fingerprints(&sorted);
        let mut rejected: Vec<bool> = Vec::with_capacity(n);
        let mut j: usize = 0;
        while j < n
            invariant
                j <= n,
                rejected@.len() == j,
                forall|q: int| 0 <= q < j ==> !#[trigger] rejected@[q],
            decreases n - j,
        {
            rejected.push(false);
            j += 1;
        }
        CandidatePool { entries: sorted, fingerprints, rejected }
    }

    fn live_count(&self) -> (c: usize)
        ensures
            c == live_in(self.rejected@, self.rejected@.len() as int),
    {
        par_count_live(&self.rejected)
    }

    /// Mark the candidate at index `i` as permanently rejected.
    fn reject(&mut self, i: usize)
        requires
            i < old(self).rejected@.len(),
        ensures
            final(self).entries == old(self).entries,
            final(self).fingerprints == old(self).fingerprints,
            final(self).rejected@ == old(self).rejected@.update(i as int, true),
    {
        self.rejected.set(i, true);
    }

    /// Post-acceptance sweep: every live candidate that the accepted tree embeds
    /// into becomes permanently rejected; the fingerprint check comes first and
    /// spares the embedding test where it fails. Returns the count of newly
    /// rejected candidates.
    fn sweep(&mut self, accepted_tree: &Tree, accepted_fp: &TreeFingerprint) -> (count: usize)
        requires
            old(self).ok(),
            accepted_tree@.wf(),
            forall|i: int| 0 <= i < old(self).entries@.len() ==> (#[trigger] old(self).entries@[i]).1@.wf() && (
            accepted_tree@.len() > old(self).entries@[i].1@.len() || label_table_fits(
                accepted_tree@,
                old(self).entries@[i].1@,
            )),
        ensures
            final(self).entries == old(self).entries,
            final(self).fingerprints == old(self).fingerprints,
            final(self).rejected@.len() == old(self).rejected@.len(),
            forall|i: int| 0 <= i < final(self).rejected@.len() ==> #[trigger] final(self).rejected@[i] == (
            old(self).rejected@[i] || (TreeFingerprint::compatible_spec(
                *accepted_fp,
                old(self).fingerprints@[i],
            ) && embeds_spec(accepted_tree@, old(self).entries@[i].1@))),
            count == newly_set(old(self).rejected@, final(self).rejected@, final(self).rejected@.len() as int),
    {
        let ghost before = self.rejected@;
        let live_before = par_count_live(&self.rejected);
        par_sweep(&mut self.rejected, &self.entries, &self.fingerprints, accepted_tree, accepted_fp);
        let live_after = par_count_live(&self.rejected);
        proof {
            lemma_newly_set_live(before, self.rejected@, before.len() as int);
        }
        live_before - live_after
    }

    /// Find the first non-rejected candidate in strategy order.
    fn find_first_live(&self) -> (r: Option<(usize, &String, &Tree)>)
        requires
            self.ok(),
        ensures
            r matches Some((i, c, t)) ==> i < self.entries@.len() && !self.rejected@[i as int]
                && *c == self.entries@[i as int].0 && *t == self.entries@[i as int].1
                && forall|j: int| 0 <= j < i ==> #[trigger] self.rejected@[j],
            r is None ==> forall|j: int| 0 <= j < self.rejected@.len() ==> #[trigger] self.rejected@[j],
    {
        match par_first_live(&self.rejected) {
            Some(i) => Some((i, &self.entries[i].0, &self.entries[i].1)),
            None => None,
        }
    }

    /// Pick a uniformly random non-rejected candidate.
    /// Two-pass: count live entries, then walk to the chosen offset.
    fn find_random_live(&self, rng: &mut Rng) -> (r: Option<(usize, &String, &Tree)>)
        requires
            self.ok(),
        ensures
            live_in(self.rejected@, self.rejected@.len() as int) == 0 ==> r is None && final(rng)@ == old(rng)@,
            live_in(self.rejected@, self.rejected@.len() as int) > 0 ==> final(rng)@ == xorshift(old(rng)@)
                && (r matches Some((i, c, t)) && i < self.entries@.len() && !self.rejected@[i as int]
                && *c == self.entries@[i as int].0 && *t == self.entries@[i as int].1
                && live_in(self.rejected@, i as int) == (final(rng)@ as int) % (live_in(
                self.rejected@,
                self.rejected@.len() as int,
            ) as int)),
    {
        let live = self.live_count();
        if live == 0 {
            return None;
        }
        let ghost r0 = rng@;
        let target = rng.next_usize(live);
        let mut seen: usize = 0;
        let mut i: usize = 0;
        while i < self.entries.len()
            invariant
                self.ok(),
                i <= self.entries@.len(),
                seen == live_in(self.rejected@, i as int),
                seen <= target,
                target < live,
                live == live_in(self.rejected@, self.rejected@.len() as int),
                target == (rng@ as int) % (live as int),
                rng@ == xorshift(r0),
                r0 == old(rng)@,
            decreases self.entries@.len() - i,
        {
            if !self.rejected[i] {
                if seen == target {
                    return Some((i, &self.entries[i].0, &self.entries[i].1));
                }
                seen += 1;
            }
            i += 1;
        }
        None
    }
}

/// An accepted entry: a well-formed tree labelled in `1..=k` with at most
/// `index` nodes and at most `max_nodes`, kept with its canonical form and fingerprint.
pub open spec fn entry_ok(e: SequenceEntry, max_nodes: usize, k: u32) -> bool {
    &&& e.tree@.wf()
    &&& labels_within(e.tree@, k)
    &&& 1 <= e.tree@.len() <= e.index
    &&& e.tree@.len() <= max_nodes
    &&& e.canonical@ == tree_canon(e.tree@)
    &&& e.fingerprint.describes(e.tree@)
}

/// The entries are numbered 1, 2, ... and each is an accepted entry.
pub open spec fn sequence_ok(s: Seq<SequenceEntry>, max_nodes: usize, k: u32) -> bool {
    forall|i: int| 0 <= i < s.len() ==> (#[trigger] s[i]).index == i + 1 && entry_ok(s[i], max_nodes, k)
}

/// The TREE rule: no tree of the sequence embeds into a later one.
pub open spec fn no_earlier_embeds(s: Seq<SequenceEntry>) -> bool {
    forall|i: int, j: int| #![trigger s[i], s[j]] 0 <= i < j < s.len() ==> !embeds_spec(s[i].tree@, s[j].tree@)
}

/// No accepted tree embeds into a live candidate of the pool.
spec fn pool_clear(pool: CandidatePool, s: Seq<SequenceEntry>) -> bool {
    forall|i: int, p: int| #![trigger pool.rejected@[i], s[p]]
        0 <= i < pool.entries@.len() && !pool.rejected@[i] && 0 <= p < s.len() ==> !embeds_spec(
            s[p].tree@,
            pool.entries@[i].1@,
        )
}

/// After a sweep with a tree of the sequence, no live candidate has that tree embedding into it.
proof fn lemma_sweep_clears(before: CandidatePool, after: CandidatePool, a: TreeView, fa: TreeFingerprint)
    requires
        before.ok(),
        a.wf(),
        fa.describes(a),
        after.entries == before.entries,
        after.rejected@.len() == before.rejected@.len(),
        forall|i: int| 0 <= i < before.entries@.len() ==> (#[trigger] before.entries@[i]).1@.wf()
            && before.entries@[i].1@.len() < 256,
        forall|i: int| 0 <= i < after.rejected@.len() ==> #[trigger] after.rejected@[i] == (before.rejected@[i] || (
        TreeFingerprint::compatible_spec(fa, before.fingerprints@[i]) && embeds_spec(a, before.entries@[i].1@))),
    ensures
        forall|i: int| 0 <= i < after.entries@.len() && !#[trigger] after.rejected@[i] ==> !before.rejected@[i]
            && !embeds_spec(a, after.entries@[i].1@),
{
    assert forall|i: int| 0 <= i < after.entries@.len() && !#[trigger] after.rejected@[i] implies !before.rejected@[i]
        && !embeds_spec(a, after.entries@[i].1@) by {
        if embeds_spec(a, before.entries@[i].1@) {
            crate::fingerprint::lemma_compatible_sound(a, before.entries@[i].1@, fa, before.fingerprints@[i]);
        }
    }
}

/// Each tree is used at most once: in a sequence that keeps the TREE rule no
/// tree occurs twice, not even with its children in another order, since a
/// tree embeds into itself and into every tree with its canonical form.
pub proof fn lemma_no_tree_repeats(s: Seq<SequenceEntry>)
    requires
        no_earlier_embeds(s),
        forall|i: int| 0 <= i < s.len() ==> (#[trigger] s[i]).tree@.wf(),
    ensures
        forall|i: int, j: int| #![trigger s[i], s[j]] 0 <= i < j < s.len() ==> s[i].tree@ != s[j].tree@,
        forall|i: int, j: int| #![trigger s[i], s[j]] 0 <= i < j < s.len() ==> tree_canon(s[i].tree@) != tree_canon(s[j].tree@),
{
    assert forall|i: int, j: int| #![trigger s[i], s[j]] 0 <= i < j < s.len() implies s[i].tree@ != s[j].tree@
        && tree_canon(s[i].tree@) != tree_canon(s[j].tree@) by {
        crate::embed_spec::lemma_embeds_reflexive(s[i].tree@);
        if tree_canon(s[i].tree@) == tree_canon(s[j].tree@) {
            crate::form_unique::lemma_same_form_embeds(s[i].tree@, s[j].tree@);
        }
    }
}

/// Some tree of `s` embeds into `c`.
pub open spec fn blocked(s: Seq<SequenceEntry>, c: TreeView) -> bool {
    exists|p: int| 0 <= p < s.len() && embeds_spec(s[p].tree@, c)
}

/// The sequence cannot be extended by the TREE rule: some tree of `s` embeds
/// into every tree of at most `s.len() + 1` nodes (and at most `max_nodes`)
/// labelled in `1..=k`.
pub open spec fn exhausted(s: Seq<SequenceEntry>, max_nodes: usize, k: u32) -> bool {
    forall|t: TreeView| #![trigger labels_within(t, k)] t.wf() && labels_within(t, k) && 1 <= t.len() <= s.len() + 1
        && t.len() <= max_nodes ==> blocked(s, t)
}

/// The order of the candidate list that a strategy scans; the random strategy
/// draws from the largest-first list.
pub open spec fn backing_order(strategy: SelectionStrategy) -> CandidateOrder {
    match strategy {
        SelectionStrategy::SmallestFirst => CandidateOrder::SmallestFirst,
        _ => CandidateOrder::LargestFirst,
    }
}

/// In `order`, a tree of `n1` nodes with form `c1` may come before a tree of
/// `n2` nodes with form `c2`.
pub open spec fn key_le(order: CandidateOrder, n1: nat, c1: Seq<char>, n2: nat, c2: Seq<char>) -> bool {
    match order {
        CandidateOrder::ByCanon => text_le(c1, c2),
        CandidateOrder::LargestFirst => n1 > n2 || (n1 == n2 && text_le(c1, c2)),
        CandidateOrder::SmallestFirst => n1 < n2 || (n1 == n2 && text_le(c1, c2)),
    }
}

/// Some tree among the first `p` of `s` embeds into `t`.
pub open spec fn blocked_before(s: Seq<SequenceEntry>, p: int, t: TreeView) -> bool {
    exists|q: int| 0 <= q < p && embeds_spec(s[q].tree@, t)
}

/// Each tree of `s` comes first in `order` among the trees left open before it:
/// every tree of at most `p + 1` nodes (and at most `max_nodes`) labelled in
/// `1..=k` that comes strictly before the tree at position `p` has one of the
/// trees before position `p` embedding into it.
pub open spec fn greedy(s: Seq<SequenceEntry>, max_nodes: usize, k: u32, order: CandidateOrder) -> bool {
    forall|p: int, t: TreeView| #![trigger s[p], labels_within(t, k)]
        0 <= p < s.len() && t.wf() && labels_within(t, k) && 1 <= t.len() <= p + 1 && t.len() <= max_nodes && !key_le(
            order,
            s[p].tree@.len(),
            s[p].canonical@,
            t.len(),
            tree_canon(t),
        ) ==> blocked_before(s, p, t)
}

/// The sort key of a tree: its node count and its canonical form.
pub open spec fn tree_key(t: TreeView) -> (nat, Seq<char>) {
    (t.len(), tree_canon(t))
}

/// `key` is the key of a tree of `1..=size` nodes labelled in `1..=k`.
#[verifier::opaque]
pub open spec fn key_in_family(key: (nat, Seq<char>), size: nat, k: u32) -> bool {
    exists|t: TreeView| #![trigger tree_key(t)] t.wf() && labels_within(t, k) && 1 <= t.len() <= size && key == tree_key(t)
}

/// `l` lists the keys of the trees of `1..=size` nodes labelled in `1..=k`,
/// each once, in strictly increasing `order`.
pub open spec fn key_listing(l: Seq<(nat, Seq<char>)>, size: nat, k: u32, order: CandidateOrder) -> bool {
    &&& forall|i: int| 0 <= i < l.len() ==> #[trigger] key_in_family(l[i], size, k)
    &&& forall|t: TreeView| #![trigger labels_within(t, k)] t.wf() && labels_within(t, k) && 1 <= t.len() <= size
        ==> exists|i: int| 0 <= i < l.len() && l[i] == tree_key(t)
    &&& forall|i: int, j: int| #![trigger l[i], l[j]] 0 <= i < j < l.len() ==> key_le(order, l[i].0, l[i].1, l[j].0, l[j].1)
        && l[i] != l[j]
}

/// The keys of the trees of `1..=size` nodes labelled in `1..=k`, in `order`.
pub open spec fn key_list(size: nat, k: u32, order: CandidateOrder) -> Seq<(nat, Seq<char>)> {
    choose|l: Seq<(nat, Seq<char>)>| key_listing(l, size, k, order)
}

/// No tree of the form `c` has one of the first `p` trees of `s` embedding into it.
pub open spec fn form_open(s: Seq<SequenceEntry>, p: int, c: Seq<char>) -> bool {
    forall|t: TreeView| #![trigger tree_canon(t)] t.wf() && tree_canon(t) == c ==> !blocked_before(s, p, t)
}

/// How many of the first `n` keys of `l` have a form left open by the first `p` trees of `s`.
pub open spec fn open_count(s: Seq<SequenceEntry>, p: int, l: Seq<(nat, Seq<char>)>, n: int) -> nat
    decreases n,
{
    if n <= 0 {
        0
    } else {
        open_count(s, p, l, n - 1) + if form_open(s, p, l[n - 1].1) {
            1nat
        } else {
            0nat
        }
    }
}

/// The generator state `n` steps after `x`.
pub open spec fn xorshift_iter(x: u64, n: nat) -> u64
    decreases n,
{
    if n == 0 {
        x
    } else {
        xorshift(xorshift_iter(x, (n - 1) as nat))
    }
}

/// The state a generator starts from for `seed`.
pub open spec fn seed_state(seed: u64) -> u64 {
    if seed == 0 {
        0x123456789abcdef1u64
    } else {
        seed
    }
}

/// The node budget of position `p` (counted from 0).
pub open spec fn budget(p: int, max_nodes: usize) -> nat {
    if p + 1 < max_nodes {
        (p + 1) as nat
    } else {
        max_nodes as nat
    }
}

/// The tree at position `p` of `s` is the one the random strategy draws there
/// from the state `x`: among the keys of the trees within the node budget, in
/// largest-first order, the open ones before it are as many as the generator's
/// `p + 1`-th state after `x`, modulo the number of open keys.
pub open spec fn drawn_at(s: Seq<SequenceEntry>, p: int, max_nodes: usize, k: u32, x: u64) -> bool {
    let l = key_list(budget(p, max_nodes), k, CandidateOrder::LargestFirst);
    exists|i: int| #![trigger l[i]]
        0 <= i < l.len() && l[i] == tree_key(s[p].tree@) && open_count(s, p, l, i) == (xorshift_iter(x, (p + 1) as nat)
            as int) % (open_count(s, p, l, l.len() as int) as int)
}

/// Every tree of `s` is the random strategy's draw from the state `x`.
pub open spec fn random_draws(s: Seq<SequenceEntry>, max_nodes: usize, k: u32, x: u64) -> bool {
    forall|p: int| 0 <= p < s.len() ==> #[trigger] drawn_at(s, p, max_nodes, k, x)
}

/// Largest-first and smallest-first keys never tie unless equal.
proof fn lemma_key_le_antisym(order: CandidateOrder, a: (nat, Seq<char>), b: (nat, Seq<char>))
    requires
        order != CandidateOrder::ByCanon,
        key_le(order, a.0, a.1, b.0, b.1),
        key_le(order, b.0, b.1, a.0, a.1),
    ensures
        a == b,
{
    lemma_text_le_antisym(a.1, b.1);
}

/// Two strictly increasing listings of the same keys are equal.
proof fn lemma_sorted_keys_unique(l1: Seq<(nat, Seq<char>)>, l2: Seq<(nat, Seq<char>)>, order: CandidateOrder)
    requires
        order != CandidateOrder::ByCanon,
        forall|i: int, j: int| #![trigger l1[i], l1[j]] 0 <= i < j < l1.len() ==> key_le(order, l1[i].0, l1[i].1, l1[j].0, l1[j].1)
            && l1[i] != l1[j],
        forall|i: int, j: int| #![trigger l2[i], l2[j]] 0 <= i < j < l2.len() ==> key_le(order, l2[i].0, l2[i].1, l2[j].0, l2[j].1)
            && l2[i] != l2[j],
        forall|i: int| 0 <= i < l1.len() ==> l2.contains(#[trigger] l1[i]),
        forall|j: int| 0 <= j < l2.len() ==> l1.contains(#[trigger] l2[j]),
    ensures
        l1 == l2,
    decreases l1.len(),
{
    if l1.len() == 0 {
        if l2.len() > 0 {
            assert(l1.contains(l2[0]));
        }
        assert(l1 =~= l2);
    } else {
        assert(l2.contains(l1[0]));
        assert(l2.len() > 0);
        assert(l1.contains(l2[0]));
        let a = l1[0];
        let b = l2[0];
        let j = choose|j: int| 0 <= j < l2.len() && l2[j] == a;
        let i = choose|i: int| 0 <= i < l1.len() && l1[i] == b;
        if j > 0 {
            assert(key_le(order, l2[0].0, l2[0].1, l2[j].0, l2[j].1));
        } else {
            lemma_text_le_refl(a.1);
        }
        if i > 0 {
            assert(key_le(order, l1[0].0, l1[0].1, l1[i].0, l1[i].1));
        } else {
            lemma_text_le_refl(a.1);
        }
        lemma_key_le_antisym(order, a, b);
        let d1 = l1.drop_first();
        let d2 = l2.drop_first();
        assert forall|q: int| 0 <= q < d1.len() implies d2.contains(#[trigger] d1[q]) by {
            assert(d1[q] == l1[q + 1]);
            assert(l2.contains(l1[q + 1]));
            let r = choose|r: int| 0 <= r < l2.len() && l2[r] == l1[q + 1];
            assert(l1[0] != l1[q + 1]);
            assert(r != 0);
            assert(d2[r - 1] == l2[r]);
        }
        assert forall|q: int| 0 <= q < d2.len() implies d1.contains(#[trigger] d2[q]) by {
            assert(d2[q] == l2[q + 1]);
            assert(l1.contains(l2[q + 1]));
            let r = choose|r: int| 0 <= r < l1.len() && l1[r] == l2[q + 1];
            assert(l2[0] != l2[q + 1]);
            assert(r != 0);
            assert(d1[r - 1] == l1[r]);
        }
        assert forall|x: int, y: int| #![trigger d1[x], d1[y]] 0 <= x < y < d1.len() implies key_le(
            order,
            d1[x].0,
            d1[x].1,
            d1[y].0,
            d1[y].1,
        ) && d1[x] != d1[y] by {
            assert(d1[x] == l1[x + 1] && d1[y] == l1[y + 1]);
        }
        assert forall|x: int, y: int| #![trigger d2[x], d2[y]] 0 <= x < y < d2.len() implies key_le(
            order,
            d2[x].0,
            d2[x].1,
            d2[y].0,
            d2[y].1,
        ) && d2[x] != d2[y] by {
            assert(d2[x] == l2[x + 1] && d2[y] == l2[y + 1]);
        }
        lemma_sorted_keys_unique(d1, d2, order);
        assert(l1 =~= l2) by {
            assert forall|q: int| 0 <= q < l1.len() implies l1[q] == l2[q] by {
                if q > 0 {
                    assert(l1[q] == d1[q - 1] && l2[q] == d2[q - 1]);
                }
            }
        }
    }
}

/// Two listings of the same keys in the same order are equal.
proof fn lemma_key_listing_unique(l1: Seq<(nat, Seq<char>)>, l2: Seq<(nat, Seq<char>)>, size: nat, k: u32, order: CandidateOrder)
    requires
        order != CandidateOrder::ByCanon,
        key_listing(l1, size, k, order),
        key_listing(l2, size, k, order),
    ensures
        l1 == l2,
{
    assert forall|i: int| 0 <= i < l1.len() implies l2.contains(#[trigger] l1[i]) by {
        assert(key_in_family(l1[i], size, k));
        reveal(key_in_family);
        let t = choose|t: TreeView| #![trigger tree_key(t)] t.wf() && labels_within(t, k) && 1 <= t.len() <= size && l1[i] == tree_key(t);
        assert(labels_within(t, k));
        let j = choose|j: int| 0 <= j < l2.len() && l2[j] == tree_key(t);
        assert(l2[j] == l1[i]);
    }
    assert forall|i: int| 0 <= i < l2.len() implies l1.contains(#[trigger] l2[i]) by {
        assert(key_in_family(l2[i], size, k));
        reveal(key_in_family);
        let t = choose|t: TreeView| #![trigger tree_key(t)] t.wf() && labels_within(t, k) && 1 <= t.len() <= size && l2[i] == tree_key(t);
        assert(labels_within(t, k));
        let j = choose|j: int| 0 <= j < l1.len() && l1[j] == tree_key(t);
        assert(l1[j] == l2[i]);
    }
    lemma_sorted_keys_unique(l1, l2, order);
}

/// What a run of the generator returns: at most `count` trees, numbered and
/// valid, none embedding into a later one, and exhausted when shorter than `count`.
pub open spec fn run_ok(r: Seq<SequenceEntry>, count: usize, max_nodes: usize, k: u32) -> bool {
    &&& r.len() <= count
    &&& sequence_ok(r, max_nodes, k)
    &&& no_earlier_embeds(r)
    &&& r.len() < count ==> exhausted(r, max_nodes, k)
}

/// Sequences whose first `p` trees have the same forms block the same trees.
proof fn lemma_same_prefix_blocks(r1: Seq<SequenceEntry>, r2: Seq<SequenceEntry>, p: int, max_nodes: usize, k: u32)
    requires
        sequence_ok(r1, max_nodes, k),
        sequence_ok(r2, max_nodes, k),
        0 <= p <= r1.len(),
        p <= r2.len(),
        forall|q: int| 0 <= q < p ==> (#[trigger] r1[q]).canonical@ == r2[q].canonical@,
    ensures
        forall|t: TreeView| t.wf() ==> (blocked_before(r1, p, t) <==> blocked_before(r2, p, t)),
{
    assert forall|t: TreeView| t.wf() implies (blocked_before(r1, p, t) <==> blocked_before(r2, p, t)) by {
        if blocked_before(r1, p, t) {
            let q = choose|q: int| 0 <= q < p && embeds_spec(r1[q].tree@, t);
            assert(entry_ok(r1[q], max_nodes, k) && entry_ok(r2[q], max_nodes, k));
            crate::form_unique::lemma_same_form_embeds(r2[q].tree@, r1[q].tree@);
            crate::embed_spec::lemma_embeds_transitive(r2[q].tree@, r1[q].tree@, t);
        }
        if blocked_before(r2, p, t) {
            let q = choose|q: int| 0 <= q < p && embeds_spec(r2[q].tree@, t);
            assert(r1[q].canonical@ == r2[q].canonical@);
            assert(entry_ok(r1[q], max_nodes, k) && entry_ok(r2[q], max_nodes, k));
            crate::form_unique::lemma_same_form_embeds(r1[q].tree@, r2[q].tree@);
            crate::embed_spec::lemma_embeds_transitive(r1[q].tree@, r2[q].tree@, t);
        }
    }
}

/// The tree at position `p` of a sequence keeping the TREE rule is not blocked
/// by the trees before it, nor is any tree of its form.
proof fn lemma_own_form_open(r: Seq<SequenceEntry>, p: int, max_nodes: usize, k: u32)
    requires
        sequence_ok(r, max_nodes, k),
        no_earlier_embeds(r),
        0 <= p < r.len(),
    ensures
        form_open(r, p, r[p].canonical@),
{
    assert(entry_ok(r[p], max_nodes, k));
    assert forall|t: TreeView| #![trigger tree_canon(t)] t.wf() && tree_canon(t) == r[p].canonical@ implies !blocked_before(
        r,
        p,
        t,
    ) by {
        if blocked_before(r, p, t) {
            let q = choose|q: int| 0 <= q < p && embeds_spec(r[q].tree@, t);
            assert(entry_ok(r[q], max_nodes, k));
            crate::form_unique::lemma_same_form_embeds(t, r[p].tree@);
            crate::embed_spec::lemma_embeds_transitive(r[q].tree@, t, r[p].tree@);
            assert(!embeds_spec(r[q].tree@, r[p].tree@));
        }
    }
}

/// Open counts agree where the blocked trees agree.
proof fn lemma_open_count_equiv(s1: Seq<SequenceEntry>, s2: Seq<SequenceEntry>, p: int, l: Seq<(nat, Seq<char>)>, n: int)
    requires
        forall|t: TreeView| t.wf() ==> (blocked_before(s1, p, t) <==> blocked_before(s2, p, t)),
    ensures
        open_count(s1, p, l, n) == open_count(s2, p, l, n),
    decreases n,
{
    if n > 0 {
        lemma_open_count_equiv(s1, s2, p, l, n - 1);
        let c = l[n - 1].1;
        assert(form_open(s1, p, c) == form_open(s2, p, c));
    }
}

/// The open count grows past every open key.
proof fn lemma_open_count_grows(s: Seq<SequenceEntry>, p: int, l: Seq<(nat, Seq<char>)>, i: int, j: int)
    requires
        0 <= i < j,
        form_open(s, p, l[i].1),
    ensures
        open_count(s, p, l, j) > open_count(s, p, l, i),
    decreases j,
{
    if j > i + 1 {
        lemma_open_count_grows(s, p, l, i, j - 1);
    }
}

/// Two runs that each draw by the same rule agree on the form at position `p`
/// once they agree before it.
proof fn lemma_random_position_agrees(r1: Seq<SequenceEntry>, r2: Seq<SequenceEntry>, p: int, max_nodes: usize, k: u32, x: u64)
    requires
        sequence_ok(r1, max_nodes, k),
        sequence_ok(r2, max_nodes, k),
        no_earlier_embeds(r1),
        no_earlier_embeds(r2),
        0 <= p < r1.len(),
        p < r2.len(),
        forall|q: int| 0 <= q < p ==> (#[trigger] r1[q]).canonical@ == r2[q].canonical@,
        drawn_at(r1, p, max_nodes, k, x),
        drawn_at(r2, p, max_nodes, k, x),
    ensures
        r1[p].canonical@ == r2[p].canonical@,
{
    let l = key_list(budget(p, max_nodes), k, CandidateOrder::LargestFirst);
    let total = open_count(r1, p, l, l.len() as int);
    let i1 = choose|i: int| #![trigger l[i]]
        0 <= i < l.len() && l[i] == tree_key(r1[p].tree@) && open_count(r1, p, l, i) == (xorshift_iter(x, (p + 1) as nat)
            as int) % (open_count(r1, p, l, l.len() as int) as int);
    let i2 = choose|i: int| #![trigger l[i]]
        0 <= i < l.len() && l[i] == tree_key(r2[p].tree@) && open_count(r2, p, l, i) == (xorshift_iter(x, (p + 1) as nat)
            as int) % (open_count(r2, p, l, l.len() as int) as int);
    lemma_same_prefix_blocks(r1, r2, p, max_nodes, k);
    lemma_open_count_equiv(r1, r2, p, l, i2);
    lemma_open_count_equiv(r1, r2, p, l, l.len() as int);
    assert(entry_ok(r1[p], max_nodes, k) && entry_ok(r2[p], max_nodes, k));
    lemma_own_form_open(r1, p, max_nodes, k);
    lemma_own_form_open(r2, p, max_nodes, k);
    assert(form_open(r1, p, l[i1].1));
    assert(form_open(r2, p, l[i2].1));
    assert(form_open(r1, p, l[i2].1));
    if i1 < i2 {
        lemma_open_count_grows(r1, p, l, i1, i2);
    }
    if i2 < i1 {
        lemma_open_count_grows(r1, p, l, i2, i1);
    }
    assert(i1 == i2);
}

/// Two greedy runs in the same order agree on the form at position `p` once
/// they agree before it.
proof fn lemma_greedy_position_agrees(
    r1: Seq<SequenceEntry>,
    r2: Seq<SequenceEntry>,
    p: int,
    max_nodes: usize,
    k: u32,
    order: CandidateOrder,
)
    requires
        order != CandidateOrder::ByCanon,
        sequence_ok(r1, max_nodes, k),
        sequence_ok(r2, max_nodes, k),
        no_earlier_embeds(r1),
        no_earlier_embeds(r2),
        greedy(r1, max_nodes, k, order),
        greedy(r2, max_nodes, k, order),
        0 <= p < r1.len(),
        p < r2.len(),
        forall|q: int| 0 <= q < p ==> (#[trigger] r1[q]).canonical@ == r2[q].canonical@,
    ensures
        r1[p].canonical@ == r2[p].canonical@,
{
    let a = r1[p];
    let b = r2[p];
    assert(entry_ok(a, max_nodes, k) && entry_ok(b, max_nodes, k));
    lemma_same_prefix_blocks(r1, r2, p, max_nodes, k);
    lemma_own_form_open(r1, p, max_nodes, k);
    lemma_own_form_open(r2, p, max_nodes, k);
    lemma_text_le_total(a.canonical@, b.canonical@);
    if !key_le(order, a.tree@.len(), a.canonical@, b.tree@.len(), b.canonical@) {
        assert(labels_within(b.tree@, k));
        assert(blocked_before(r2, p, b.tree@));
    }
    if !key_le(order, b.tree@.len(), b.canonical@, a.tree@.len(), a.canonical@) {
        assert(labels_within(a.tree@, k));
        assert(blocked_before(r1, p, a.tree@));
    }
    lemma_key_le_antisym(order, (a.tree@.len(), a.canonical@), (b.tree@.len(), b.canonical@));
}

/// Runs that agree on every position they share have the same length.
proof fn lemma_runs_same_length(r1: Seq<SequenceEntry>, r2: Seq<SequenceEntry>, count: usize, max_nodes: usize, k: u32)
    requires
        run_ok(r1, count, max_nodes, k),
        run_ok(r2, count, max_nodes, k),
        r1.len() <= r2.len(),
        forall|q: int| 0 <= q < r1.len() ==> (#[trigger] r1[q]).canonical@ == r2[q].canonical@,
    ensures
        r1.len() == r2.len(),
{
    if r1.len() < r2.len() {
        let n = r1.len() as int;
        let t = r2[n].tree@;
        assert(entry_ok(r2[n], max_nodes, k));
        assert(labels_within(t, k));
        assert(blocked(r1, t));
        assert(blocked_before(r1, n, t));
        lemma_same_prefix_blocks(r1, r2, n, max_nodes, k);
        assert(blocked_before(r2, n, t));
        lemma_own_form_open(r2, n, max_nodes, k);
    }
}

/// One seed, one sequence: two runs of the random strategy that draw from the
/// same generator state give trees of the same forms, in the same order.
pub proof fn lemma_seeded_runs_agree(
    r1: Seq<SequenceEntry>,
    r2: Seq<SequenceEntry>,
    count: usize,
    max_nodes: usize,
    k: u32,
    x: u64,
)
    requires
        run_ok(r1, count, max_nodes, k),
        run_ok(r2, count, max_nodes, k),
        random_draws(r1, max_nodes, k, x),
        random_draws(r2, max_nodes, k, x),
    ensures
        r1.len() == r2.len(),
        forall|p: int| 0 <= p < r1.len() ==> (#[trigger] r1[p]).canonical@ == r2[p].canonical@,
{
    let m = if r1.len() <= r2.len() { r1.len() } else { r2.len() };
    lemma_random_prefix_agrees(r1, r2, max_nodes, k, x, m as int);
    if r1.len() <= r2.len() {
        lemma_runs_same_length(r1, r2, count, max_nodes, k);
    } else {
        lemma_runs_same_length(r2, r1, count, max_nodes, k);
    }
}

proof fn lemma_random_prefix_agrees(r1: Seq<SequenceEntry>, r2: Seq<SequenceEntry>, max_nodes: usize, k: u32, x: u64, n: int)
    requires
        sequence_ok(r1, max_nodes, k),
        sequence_ok(r2, max_nodes, k),
        no_earlier_embeds(r1),
        no_earlier_embeds(r2),
        random_draws(r1, max_nodes, k, x),
        random_draws(r2, max_nodes, k, x),
        0 <= n <= r1.len(),
        n <= r2.len(),
    ensures
        forall|q: int| 0 <= q < n ==> (#[trigger] r1[q]).canonical@ == r2[q].canonical@,
    decreases n,
{
    if n > 0 {
        lemma_random_prefix_agrees(r1, r2, max_nodes, k, x, n - 1);
        assert(drawn_at(r1, n - 1, max_nodes, k, x));
        assert(drawn_at(r2, n - 1, max_nodes, k, x));
        lemma_random_position_agrees(r1, r2, n - 1, max_nodes, k, x);
    }
}

proof fn lemma_greedy_prefix_agrees(r1: Seq<SequenceEntry>, r2: Seq<SequenceEntry>, max_nodes: usize, k: u32, order: CandidateOrder, n: int)
    requires
        order != CandidateOrder::ByCanon,
        sequence_ok(r1, max_nodes, k),
        sequence_ok(r2, max_nodes, k),
        no_earlier_embeds(r1),
        no_earlier_embeds(r2),
        greedy(r1, max_nodes, k, order),
        greedy(r2, max_nodes, k, order),
        0 <= n <= r1.len(),
        n <= r2.len(),
    ensures
        forall|q: int| 0 <= q < n ==> (#[trigger] r1[q]).canonical@ == r2[q].canonical@,
    decreases n,
{
    if n > 0 {
        lemma_greedy_prefix_agrees(r1, r2, max_nodes, k, order, n - 1);
        lemma_greedy_position_agrees(r1, r2, n - 1, max_nodes, k, order);
    }
}

/// The greedy strategies are deterministic: two runs in the same order give
/// trees of the same forms, in the same order.
pub proof fn lemma_greedy_runs_agree(
    r1: Seq<SequenceEntry>,
    r2: Seq<SequenceEntry>,
    count: usize,
    max_nodes: usize,
    k: u32,
    order: CandidateOrder,
)
    requires
        order != CandidateOrder::ByCanon,
        run_ok(r1, count, max_nodes, k),
        run_ok(r2, count, max_nodes, k),
        greedy(r1, max_nodes, k, order),
        greedy(r2, max_nodes, k, order),
    ensures
        r1.len() == r2.len(),
        forall|p: int| 0 <= p < r1.len() ==> (#[trigger] r1[p]).canonical@ == r2[p].canonical@,
{
    let m = if r1.len() <= r2.len() { r1.len() } else { r2.len() };
    lemma_greedy_prefix_agrees(r1, r2, max_nodes, k, order, m as int);
    if r1.len() <= r2.len() {
        lemma_runs_same_length(r1, r2, count, max_nodes, k);
    } else {
        lemma_runs_same_length(r2, r1, count, max_nodes, k);
    }
}

/// Every entry of `s` has been handed to the callback `f`.
#[verifier::opaque]
pub open spec fn reported<F: FnMut(&SequenceEntry)>(f: F, s: Seq<SequenceEntry>) -> bool {
    forall|i: int| 0 <= i < s.len() ==> call_ensures(f, (&s[i],), ())
}

proof fn lemma_reported_push<F: FnMut(&SequenceEntry)>(f: F, s: Seq<SequenceEntry>, e: SequenceEntry)
    requires
        reported(f, s),
        call_ensures(f, (&e,), ()),
    ensures
        reported(f, s.push(e)),
{
    reveal(reported);
    assert forall|i: int| 0 <= i < s.push(e).len() implies call_ensures(f, (&s.push(e)[i],), ()) by {
        if i < s.len() {
            assert(s.push(e)[i] == s[i]);
        }
    }
}

proof fn lemma_reported_empty<F: FnMut(&SequenceEntry)>(f: F)
    ensures
        reported(f, Seq::<SequenceEntry>::empty()),
{
    reveal(reported);
}

proof fn lemma_reported_all<F: FnMut(&SequenceEntry)>(f: F, s: Seq<SequenceEntry>)
    requires
        reported(f, s),
    ensures
        forall|i: int| 0 <= i < s.len() ==> call_ensures(f, (&s[i],), ()),
{
    reveal(reported);
}

/// A tree with the canonical form of a blocked tree is blocked too.
proof fn lemma_blocked_same_form(s: Seq<SequenceEntry>, c: TreeView, t: TreeView)
    requires
        forall|p: int| 0 <= p < s.len() ==> (#[trigger] s[p]).tree@.wf(),
        c.wf(),
        t.wf(),
        tree_canon(c) == tree_canon(t),
        blocked(s, c),
    ensures
        blocked(s, t),
{
    let p = choose|p: int| 0 <= p < s.len() && embeds_spec(s[p].tree@, c);
    assert(s[p].tree@.wf());
    crate::form_unique::lemma_same_form_embeds(c, t);
    crate::embed_spec::lemma_embeds_transitive(s[p].tree@, c, t);
}

/// Every candidate of the pool has at most `size` nodes.
spec fn pool_entries_ok(pool: CandidatePool, k: u32, size: nat) -> bool {
    forall|i: int| 0 <= i < pool.entries@.len() ==> candidate_upto(#[trigger] pool.entries@[i], k, size)
}

/// The pool holds a candidate of every canonical form of `1..=size` nodes.
spec fn pool_covers(pool: CandidatePool, size: nat, k: u32) -> bool {
    forall|t: TreeView| #![trigger labels_within(t, k)] t.wf() && labels_within(t, k) && 1 <= t.len() <= size ==> exists|i: int|
        0 <= i < pool.entries@.len() && pool.entries@[i].0@ == tree_canon(t)
}

/// Every rejected candidate has a tree of `s` embedding into it.
spec fn pool_justified(pool: CandidatePool, s: Seq<SequenceEntry>) -> bool {
    forall|i: int| 0 <= i < pool.entries@.len() && #[trigger] pool.rejected@[i] ==> blocked(s, pool.entries@[i].1@)
}

proof fn lemma_live_zero(rej: Seq<bool>, n: int)
    requires
        0 <= n <= rej.len(),
        live_in(rej, n) == 0,
    ensures
        forall|j: int| 0 <= j < n ==> #[trigger] rej[j],
    decreases n,
{
    if n > 0 {
        lemma_live_zero(rej, n - 1);
    }
}

/// A fresh pool of the candidates of `1..=allowed_size` nodes in the strategy's
/// order, replayed against the accepted trees: a candidate is rejected exactly
/// when the fingerprint check passes and an accepted tree embeds into it.
fn rebuild_pool(
    sequence: &Vec<SequenceEntry>,
    allowed_size: usize,
    k: u32,
    strategy: SelectionStrategy,
    cache: &mut TreeCache,
    Ghost(max_nodes): Ghost<usize>,
) -> (pool: CandidatePool)
    requires
        old(cache).inv(),
        k < 32,
        allowed_size <= max_nodes,
        max_nodes <= i32::MAX,
        sequence_ok(sequence@, max_nodes, k),
    ensures
        final(cache).inv(),
        pool.ok(),
        pool_entries_ok(pool, k, allowed_size as nat),
        pool_covers(pool, allowed_size as nat, k),
        pool_justified(pool, sequence@),
        max_nodes < 256 ==> pool_clear(pool, sequence@),
        sorted_by(pool.entries@, cand_order(backing_order(strategy))),
        distinct_forms(pool.entries@),
{
    let sorted = match strategy {
        SelectionStrategy::SmallestFirst => all_trees_up_to_size_smallest_first(allowed_size, k, cache),
        // Random uses largest-first as the backing order; selection is
        // randomised at pick time, not at sort time.
        SelectionStrategy::LargestFirst | SelectionStrategy::Random => all_trees_up_to_size_largest_first(
            allowed_size,
            k,
            cache,
        ),
    };
    let mut new_pool = CandidatePool::new(sorted);
    // Replay: sweep every previously accepted tree to initialize the rejection
    // flags of the new pool.
    let mut q: usize = 0;
    while q < sequence.len()
        invariant
            q <= sequence@.len(),
            k < 32,
            max_nodes <= i32::MAX,
            allowed_size <= max_nodes,
            sequence_ok(sequence@, max_nodes, k),
            new_pool.ok(),
            pool_entries_ok(new_pool, k, allowed_size as nat),
            pool_covers(new_pool, allowed_size as nat, k),
            pool_justified(new_pool, sequence@),
            sorted_by(new_pool.entries@, cand_order(backing_order(strategy))),
            distinct_forms(new_pool.entries@),
            max_nodes < 256 ==> forall|i: int, p: int| #![trigger new_pool.rejected@[i], sequence@[p]]
                0 <= i < new_pool.entries@.len() && !new_pool.rejected@[i] && 0 <= p < q ==> !embeds_spec(
                    sequence@[p].tree@,
                    new_pool.entries@[i].1@,
                ),
        decreases sequence@.len() - q,
    {
        let entry = &sequence[q];
        assert(entry_ok(sequence@[q as int], max_nodes, k));
        proof {
            assert forall|i: int| 0 <= i < new_pool.entries@.len() implies (#[trigger] new_pool.entries@[i]).1@.wf() && (
            entry.tree@.len() > new_pool.entries@[i].1@.len() || label_table_fits(
                entry.tree@,
                new_pool.entries@[i].1@,
            )) by {
                assert(candidate_upto(new_pool.entries@[i], k, allowed_size as nat));
                lemma_table_fits(entry.tree@, new_pool.entries@[i].1@, k);
            }
        }
        let ghost before = new_pool;
        let _ = new_pool.sweep(&entry.tree, &entry.fingerprint);
        proof {
            assert forall|i: int| 0 <= i < new_pool.entries@.len() && #[trigger] new_pool.rejected@[i] implies blocked(
                sequence@,
                new_pool.entries@[i].1@,
            ) by {
                if !before.rejected@[i] {
                    assert(embeds_spec(sequence@[q as int].tree@, new_pool.entries@[i].1@));
                }
            }
            if max_nodes < 256 {
                assert forall|i: int| 0 <= i < before.entries@.len() implies (#[trigger] before.entries@[i]).1@.wf()
                    && before.entries@[i].1@.len() < 256 by {
                    assert(candidate_upto(before.entries@[i], k, allowed_size as nat));
                }
                lemma_sweep_clears(before, new_pool, entry.tree@, entry.fingerprint);
                assert forall|i: int, p: int| #![trigger new_pool.rejected@[i], sequence@[p]]
                    0 <= i < new_pool.entries@.len() && !new_pool.rejected@[i] && 0 <= p < q + 1 implies !embeds_spec(
                        sequence@[p].tree@,
                        new_pool.entries@[i].1@,
                    ) by {
                    if p < q {
                        assert(!before.rejected@[i]);
                    }
                }
            }
        }
        q += 1;
    }
    new_pool
}

/// Taking the first live candidate of a sorted pool keeps the sequence greedy.
proof fn lemma_greedy_step(
    pool: CandidatePool,
    old_seq: Seq<SequenceEntry>,
    entry: SequenceEntry,
    idx: int,
    k: u32,
    max_nodes: usize,
    allowed: nat,
    order: CandidateOrder,
)
    requires
        pool.ok(),
        pool_entries_ok(pool, k, allowed),
        pool_covers(pool, allowed, k),
        pool_justified(pool, old_seq),
        sorted_by(pool.entries@, cand_order(order)),
        forall|p: int| 0 <= p < old_seq.len() ==> (#[trigger] old_seq[p]).tree@.wf(),
        greedy(old_seq, max_nodes, k, order),
        allowed <= old_seq.len() + 1,
        allowed <= max_nodes,
        allowed == old_seq.len() + 1 || allowed == max_nodes,
        0 <= idx < pool.entries@.len(),
        forall|j: int| 0 <= j < idx ==> #[trigger] pool.rejected@[j],
        entry.tree@ == pool.entries@[idx].1@,
        entry.canonical@ == pool.entries@[idx].0@,
    ensures
        greedy(old_seq.push(entry), max_nodes, k, order),
{
    let s = old_seq.push(entry);
    let n = old_seq.len() as int;
    assert forall|p: int, t: TreeView| #![trigger s[p], labels_within(t, k)]
        0 <= p < s.len() && t.wf() && labels_within(t, k) && 1 <= t.len() <= p + 1 && t.len() <= max_nodes && !key_le(
            order,
            s[p].tree@.len(),
            s[p].canonical@,
            t.len(),
            tree_canon(t),
        ) implies blocked_before(s, p, t) by {
        if p < n {
            assert(s[p] == old_seq[p]);
            assert(blocked_before(old_seq, p, t));
            let q = choose|q: int| 0 <= q < p && embeds_spec(old_seq[q].tree@, t);
            assert(s[q] == old_seq[q]);
        } else {
            assert(s[p] == entry);
            lemma_first_live_is_least(pool, old_seq, entry, idx, k, allowed, order, t);
            let q = choose|q: int| 0 <= q < old_seq.len() && embeds_spec(old_seq[q].tree@, t);
            assert(s[q] == old_seq[q]);
        }
    }
}

/// Every tree that comes strictly before the first live candidate of a sorted
/// pool is blocked.
proof fn lemma_first_live_is_least(
    pool: CandidatePool,
    old_seq: Seq<SequenceEntry>,
    entry: SequenceEntry,
    idx: int,
    k: u32,
    allowed: nat,
    order: CandidateOrder,
    t: TreeView,
)
    requires
        pool.ok(),
        pool_entries_ok(pool, k, allowed),
        pool_covers(pool, allowed, k),
        pool_justified(pool, old_seq),
        sorted_by(pool.entries@, cand_order(order)),
        forall|p: int| 0 <= p < old_seq.len() ==> (#[trigger] old_seq[p]).tree@.wf(),
        0 <= idx < pool.entries@.len(),
        forall|j: int| 0 <= j < idx ==> #[trigger] pool.rejected@[j],
        entry.tree@ == pool.entries@[idx].1@,
        entry.canonical@ == pool.entries@[idx].0@,
        t.wf(),
        labels_within(t, k),
        1 <= t.len() <= allowed,
        !key_le(order, entry.tree@.len(), entry.canonical@, t.len(), tree_canon(t)),
    ensures
        blocked(old_seq, t),
{
    let j = choose|j: int| 0 <= j < pool.entries@.len() && pool.entries@[j].0@ == tree_canon(t);
    assert(candidate_upto(pool.entries@[j], k, allowed));
    crate::form_unique::lemma_same_form_size(pool.entries@[j].1@, t);
    if j == idx {
        crate::order::lemma_text_le_refl(tree_canon(t));
    }
    if j > idx {
        assert((cand_order(order))(pool.entries@[idx], pool.entries@[j]));
    }
    assert(j < idx);
    assert(pool.rejected@[j]);
    assert(blocked(old_seq, pool.entries@[j].1@));
    lemma_blocked_same_form(old_seq, pool.entries@[j].1@, t);
}

/// The keys of the pool's candidates, in pool order.
spec fn pool_keys(pool: CandidatePool) -> Seq<(nat, Seq<char>)> {
    pool.entries@.map_values(|e: (String, Tree)| tree_key(e.1@))
}

/// A sorted pool of all forms lists exactly the keys of `key_list`.
proof fn lemma_pool_key_list(pool: CandidatePool, allowed: nat, k: u32, order: CandidateOrder)
    requires
        order != CandidateOrder::ByCanon,
        pool_entries_ok(pool, k, allowed),
        pool_covers(pool, allowed, k),
        sorted_by(pool.entries@, cand_order(order)),
        distinct_forms(pool.entries@),
    ensures
        key_list(allowed, k, order) == pool_keys(pool),
{
    let e = pool.entries@;
    let kl = pool_keys(pool);
    assert forall|i: int| 0 <= i < kl.len() implies #[trigger] key_in_family(kl[i], allowed, k) by {
        reveal(key_in_family);
        assert(candidate_upto(e[i], k, allowed));
        assert(kl[i] == tree_key(e[i].1@));
    }
    assert forall|t: TreeView| #![trigger labels_within(t, k)] t.wf() && labels_within(t, k) && 1 <= t.len() <= allowed
        implies exists|i: int| 0 <= i < kl.len() && kl[i] == tree_key(t) by {
        let j = choose|j: int| 0 <= j < e.len() && e[j].0@ == tree_canon(t);
        assert(candidate_upto(e[j], k, allowed));
        crate::form_unique::lemma_same_form_size(e[j].1@, t);
        assert(kl[j] == tree_key(t));
    }
    assert forall|i: int, j: int| #![trigger kl[i], kl[j]] 0 <= i < j < kl.len() implies key_le(
        order,
        kl[i].0,
        kl[i].1,
        kl[j].0,
        kl[j].1,
    ) && kl[i] != kl[j] by {
        assert(candidate_upto(e[i], k, allowed));
        assert(candidate_upto(e[j], k, allowed));
        assert((cand_order(order))(e[i], e[j]));
        assert(e[i].0@ != e[j].0@);
    }
    assert(key_listing(kl, allowed, k, order));
    let l = key_list(allowed, k, order);
    assert(key_listing(l, allowed, k, order));
    lemma_key_listing_unique(l, kl, allowed, k, order);
}

/// Whether a form is open after `s` is whether its pool candidate is live.
proof fn lemma_live_open_count(pool: CandidatePool, s: Seq<SequenceEntry>, k: u32, allowed: nat, n: int)
    requires
        pool.ok(),
        pool_entries_ok(pool, k, allowed),
        pool_justified(pool, s),
        pool_clear(pool, s),
        forall|p: int| 0 <= p < s.len() ==> (#[trigger] s[p]).tree@.wf(),
        0 <= n <= pool.entries@.len(),
    ensures
        live_in(pool.rejected@, n) == open_count(s, s.len() as int, pool_keys(pool), n),
    decreases n,
{
    if n > 0 {
        lemma_live_open_count(pool, s, k, allowed, n - 1);
        let j = n - 1;
        let e = pool.entries@[j];
        let kl = pool_keys(pool);
        assert(candidate_upto(e, k, allowed));
        assert(kl[j] == tree_key(e.1@));
        if pool.rejected@[j] {
            assert(blocked(s, e.1@));
            assert(blocked_before(s, s.len() as int, e.1@));
            assert(tree_canon(e.1@) == kl[j].1);
            assert(!form_open(s, s.len() as int, kl[j].1));
        } else {
            assert forall|t: TreeView| #![trigger tree_canon(t)] t.wf() && tree_canon(t) == kl[j].1 implies !blocked_before(
                s,
                s.len() as int,
                t,
            ) by {
                if blocked_before(s, s.len() as int, t) {
                    assert(blocked(s, t));
                    lemma_blocked_same_form(s, t, e.1@);
                    let p = choose|p: int| 0 <= p < s.len() && embeds_spec(s[p].tree@, e.1@);
                    assert(!pool.rejected@[j] && 0 <= p < s.len());
                }
            }
            assert(form_open(s, s.len() as int, kl[j].1));
        }
    }
}

/// Open counts after `p` trees depend only on those trees.
proof fn lemma_open_count_prefix(s1: Seq<SequenceEntry>, s2: Seq<SequenceEntry>, p: int, l: Seq<(nat, Seq<char>)>, n: int)
    requires
        0 <= p <= s1.len(),
        p <= s2.len(),
        forall|q: int| 0 <= q < p ==> s1[q] == s2[q],
    ensures
        open_count(s1, p, l, n) == open_count(s2, p, l, n),
    decreases n,
{
    if n > 0 {
        lemma_open_count_prefix(s1, s2, p, l, n - 1);
        let c = l[n - 1].1;
        assert forall|t: TreeView| blocked_before(s1, p, t) == blocked_before(s2, p, t) by {
            if blocked_before(s1, p, t) {
                let q = choose|q: int| 0 <= q < p && embeds_spec(s1[q].tree@, t);
                assert(s2[q] == s1[q]);
            }
            if blocked_before(s2, p, t) {
                let q = choose|q: int| 0 <= q < p && embeds_spec(s2[q].tree@, t);
                assert(s2[q] == s1[q]);
            }
        }
        assert(form_open(s1, p, c) == form_open(s2, p, c));
    }
}

/// Drawing the `x`-th live candidate of the pool keeps the sequence a run of
/// random draws.
proof fn lemma_random_step(
    pool: CandidatePool,
    old_seq: Seq<SequenceEntry>,
    entry: SequenceEntry,
    idx: int,
    k: u32,
    max_nodes: usize,
    x0: u64,
)
    requires
        pool.ok(),
        pool_entries_ok(pool, k, budget(old_seq.len() as int, max_nodes)),
        pool_covers(pool, budget(old_seq.len() as int, max_nodes), k),
        pool_justified(pool, old_seq),
        pool_clear(pool, old_seq),
        sorted_by(pool.entries@, cand_order(CandidateOrder::LargestFirst)),
        distinct_forms(pool.entries@),
        forall|p: int| 0 <= p < old_seq.len() ==> (#[trigger] old_seq[p]).tree@.wf(),
        random_draws(old_seq, max_nodes, k, x0),
        0 <= idx < pool.entries@.len(),
        live_in(pool.rejected@, idx) == (xorshift_iter(x0, (old_seq.len() + 1) as nat) as int) % (live_in(
            pool.rejected@,
            pool.rejected@.len() as int,
        ) as int),
        entry.tree@ == pool.entries@[idx].1@,
    ensures
        random_draws(old_seq.push(entry), max_nodes, k, x0),
{
    let s = old_seq.push(entry);
    let n = old_seq.len() as int;
    let allowed = budget(n, max_nodes);
    assert forall|p: int| 0 <= p < s.len() implies #[trigger] drawn_at(s, p, max_nodes, k, x0) by {
        let l = key_list(budget(p, max_nodes), k, CandidateOrder::LargestFirst);
        assert forall|q: int| 0 <= q < p implies s[q] == old_seq[q] by {}
        if p < n {
            assert(drawn_at(old_seq, p, max_nodes, k, x0));
            let i = choose|i: int| #![trigger l[i]]
                0 <= i < l.len() && l[i] == tree_key(old_seq[p].tree@) && open_count(old_seq, p, l, i) == (xorshift_iter(
                    x0,
                    (p + 1) as nat,
                ) as int) % (open_count(old_seq, p, l, l.len() as int) as int);
            lemma_open_count_prefix(s, old_seq, p, l, i);
            lemma_open_count_prefix(s, old_seq, p, l, l.len() as int);
            assert(s[p] == old_seq[p]);
        } else {
            lemma_pool_key_list(pool, allowed, k, CandidateOrder::LargestFirst);
            lemma_live_open_count(pool, old_seq, k, allowed, idx);
            lemma_live_open_count(pool, old_seq, k, allowed, pool.entries@.len() as int);
            lemma_open_count_prefix(s, old_seq, p, l, idx);
            lemma_open_count_prefix(s, old_seq, p, l, l.len() as int);
            assert(s[p] == entry);
            assert(l[idx] == tree_key(entry.tree@));
        }
    }
}

/// When every candidate of a pool that has every form is rejected, the
/// sequence is exhausted.
proof fn lemma_all_rejected_exhausted(pool: CandidatePool, s: Seq<SequenceEntry>, allowed: nat, k: u32, max_nodes: usize)
    requires
        pool.ok(),
        pool_entries_ok(pool, k, allowed),
        pool_covers(pool, allowed, k),
        pool_justified(pool, s),
        forall|j: int| 0 <= j < pool.rejected@.len() ==> #[trigger] pool.rejected@[j],
        sequence_ok(s, max_nodes, k),
        allowed == budget(s.len() as int, max_nodes),
    ensures
        exhausted(s, max_nodes, k),
{
    assert forall|p: int| 0 <= p < s.len() implies (#[trigger] s[p]).tree@.wf() by {
        assert(entry_ok(s[p], max_nodes, k));
    }
    assert forall|t: TreeView| #![trigger labels_within(t, k)] t.wf() && labels_within(t, k) && 1 <= t.len() <= s.len() + 1
        && t.len() <= max_nodes implies blocked(s, t) by {
        let i = choose|i: int| 0 <= i < pool.entries@.len() && pool.entries@[i].0@ == tree_canon(t);
        assert(candidate_upto(pool.entries@[i], k, allowed));
        assert(pool.rejected@[i]);
        assert(blocked(s, pool.entries@[i].1@));
        lemma_blocked_same_form(s, pool.entries@[i].1@, t);
    }
}

/// A tree with labels in `1..=k` meets what the sweep asks of the pool's candidates.
proof fn lemma_sweep_ready(pool: CandidatePool, a: TreeView, k: u32, allowed: nat)
    requires
        pool_entries_ok(pool, k, allowed),
        a.wf(),
        labels_within(a, k),
        k < 32,
        allowed <= i32::MAX,
    ensures
        forall|i: int| 0 <= i < pool.entries@.len() ==> (#[trigger] pool.entries@[i]).1@.wf() && (a.len()
            > pool.entries@[i].1@.len() || label_table_fits(a, pool.entries@[i].1@)),
{
    assert forall|i: int| 0 <= i < pool.entries@.len() implies (#[trigger] pool.entries@[i]).1@.wf() && (a.len()
        > pool.entries@[i].1@.len() || label_table_fits(a, pool.entries@[i].1@)) by {
        assert(candidate_upto(pool.entries@[i], k, allowed));
        lemma_table_fits(a, pool.entries@[i].1@, k);
    }
}

/// Appending an accepted entry numbered next keeps the sequence valid.
proof fn lemma_push_ok(old_seq: Seq<SequenceEntry>, entry: SequenceEntry, max_nodes: usize, k: u32)
    requires
        sequence_ok(old_seq, max_nodes, k),
        entry.index == old_seq.len() + 1,
        entry_ok(entry, max_nodes, k),
    ensures
        sequence_ok(old_seq.push(entry), max_nodes, k),
{
    let s = old_seq.push(entry);
    assert forall|i: int| 0 <= i < s.len() implies (#[trigger] s[i]).index == i + 1 && entry_ok(s[i], max_nodes, k) by {
        if i < old_seq.len() {
            assert(s[i] == old_seq[i]);
        }
    }
}

/// The bookkeeping of one acceptance: the accepted candidate and every
/// candidate it embeds into leave the pool, and the TREE rule still holds.
proof fn lemma_accept(
    pool0: CandidatePool,
    pool1: CandidatePool,
    pool2: CandidatePool,
    old_seq: Seq<SequenceEntry>,
    entry: SequenceEntry,
    idx: int,
    k: u32,
    max_nodes: usize,
    allowed: nat,
)
    requires
        pool0.ok(),
        pool_entries_ok(pool0, k, allowed),
        allowed <= max_nodes,
        pool_justified(pool0, old_seq),
        max_nodes < 256 ==> pool_clear(pool0, old_seq),
        max_nodes < 256 ==> no_earlier_embeds(old_seq),
        0 <= idx < pool0.entries@.len(),
        !pool0.rejected@[idx],
        entry.tree@ == pool0.entries@[idx].1@,
        entry.fingerprint.describes(entry.tree@),
        entry.tree@.wf(),
        pool1.entries == pool0.entries,
        pool1.fingerprints == pool0.fingerprints,
        pool1.rejected@ == pool0.rejected@.update(idx, true),
        pool2.entries == pool1.entries,
        pool2.fingerprints == pool1.fingerprints,
        pool2.rejected@.len() == pool1.rejected@.len(),
        forall|i: int| 0 <= i < pool2.rejected@.len() ==> #[trigger] pool2.rejected@[i] == (pool1.rejected@[i] || (
        TreeFingerprint::compatible_spec(entry.fingerprint, pool1.fingerprints@[i]) && embeds_spec(
            entry.tree@,
            pool1.entries@[i].1@,
        ))),
    ensures
        pool_justified(pool2, old_seq.push(entry)),
        max_nodes < 256 ==> pool_clear(pool2, old_seq.push(entry)),
        max_nodes < 256 ==> no_earlier_embeds(old_seq.push(entry)),
{
    let s = old_seq.push(entry);
    assert forall|i: int| 0 <= i < pool2.entries@.len() && #[trigger] pool2.rejected@[i] implies blocked(s, pool2.entries@[i].1@) by {
        if i == idx {
            crate::embed_spec::lemma_embeds_reflexive(entry.tree@);
            assert(s[old_seq.len() as int] == entry);
        } else if pool0.rejected@[i] {
            let p = choose|p: int| 0 <= p < old_seq.len() && embeds_spec(old_seq[p].tree@, pool0.entries@[i].1@);
            assert(s[p] == old_seq[p]);
        } else {
            assert(s[old_seq.len() as int] == entry);
        }
    }
    if max_nodes < 256 {
        assert forall|i: int| 0 <= i < pool1.entries@.len() implies (#[trigger] pool1.entries@[i]).1@.wf()
            && pool1.entries@[i].1@.len() < 256 by {
            assert(candidate_upto(pool0.entries@[i], k, allowed));
        }
        lemma_sweep_clears(pool1, pool2, entry.tree@, entry.fingerprint);
        assert forall|i: int, j: int| #![trigger s[i], s[j]] 0 <= i < j < s.len() implies !embeds_spec(s[i].tree@, s[j].tree@) by {
            if j < old_seq.len() {
                assert(s[i] == old_seq[i] && s[j] == old_seq[j]);
            } else {
                assert(s[i] == old_seq[i]);
                assert(!embeds_spec(old_seq[i].tree@, pool0.entries@[idx].1@));
            }
        }
        assert forall|i: int, p: int| #![trigger pool2.rejected@[i], s[p]]
            0 <= i < pool2.entries@.len() && !pool2.rejected@[i] && 0 <= p < s.len() implies !embeds_spec(
                s[p].tree@,
                pool2.entries@[i].1@,
            ) by {
            assert(!pool1.rejected@[i]);
            if p < old_seq.len() {
                assert(s[p] == old_seq[p]);
                assert(i != idx);
                assert(!pool0.rejected@[i]);
            }
        }
    }
}

/// Generate a valid TREE(k) sequence up to `count` trees.
///
/// TREE(k) rule: T₁, T₂, … where the i-th tree has at most i nodes,
/// and no Tᵢ homeomorphically embeds into any Tⱼ for j > i.
///
/// `max_nodes` is a hard cap on tree size.
/// `strategy` controls greedy selection order.
#[verifier::rlimit(60)]
#[verifier::spinoff_prover]
pub fn generate_sequence<F>(
    count: usize,
    max_nodes: usize,
    k: u32,
    strategy: SelectionStrategy,
    seed: Option<u64>,
    mut on_found: F,
) -> (r: Vec<SequenceEntry>) where F: FnMut(&SequenceEntry)
    requires
        k < 32,
        max_nodes <= i32::MAX,
        forall|e: &SequenceEntry| call_requires(on_found, (e,)),
    ensures
        r@.len() <= count,
        sequence_ok(r@, max_nodes, k),
        max_nodes < 256 ==> no_earlier_embeds(r@),
        r@.len() < count ==> exhausted(r@, max_nodes, k),
        strategy != SelectionStrategy::Random ==> greedy(r@, max_nodes, k, backing_order(strategy)),
        strategy == SelectionStrategy::Random && max_nodes < 256 ==> exists|x: u64| #[trigger] random_draws(r@, max_nodes, k, x)
            && (seed matches Some(v) ==> x == seed_state(v)),
        forall|i: int| 0 <= i < r@.len() ==> call_ensures(on_found, (&r@[i],), ()),
{
    let ghost f0 = on_found;
    proof {
        lemma_reported_empty(f0);
    }
    let mut sequence: Vec<SequenceEntry> = Vec::new();
    let mut cache = TreeCache::new();
    let mut rng = Rng::new(resolve_seed(seed));
    let ghost x0 = rng@;

    // Pre-warm: enumerate all trees up to max_nodes once.
    let mut sz: usize = 0;
    while sz < max_nodes
        invariant
            sz <= max_nodes,
            cache.inv(),
        decreases max_nodes - sz,
    {
        sz += 1;
        let _ = all_trees_of_size_cached(sz, k, &mut cache);
    }

    // The pool is rebuilt only when the allowed size grows (positions 1..max_nodes);
    // after that only its rejection flags change.
    let mut pool = CandidatePool { entries: Vec::new(), fingerprints: Vec::new(), rejected: Vec::new() };
    let mut pool_size: Option<usize> = None;
    let mut done: usize = 0;
    while done < count
        invariant
            done <= count,
            sequence@.len() == done,
            k < 32,
            max_nodes <= i32::MAX,
            cache.inv(),
            forall|e: &SequenceEntry| call_requires(f0, (e,)),
            sequence_ok(sequence@, max_nodes, k),
            max_nodes < 256 ==> no_earlier_embeds(sequence@),
            pool.ok(),
            pool_size matches Some(ps) ==> ps <= max_nodes && pool_entries_ok(pool, k, ps as nat) && pool_covers(
                pool,
                ps as nat,
                k,
            ),
            pool_size is None ==> pool.entries@.len() == 0,
            pool_justified(pool, sequence@),
            max_nodes < 256 ==> pool_clear(pool, sequence@),
            sorted_by(pool.entries@, cand_order(backing_order(strategy))),
            distinct_forms(pool.entries@),
            strategy != SelectionStrategy::Random ==> greedy(sequence@, max_nodes, k, backing_order(strategy)),
            strategy == SelectionStrategy::Random ==> rng@ == xorshift_iter(x0, done as nat),
            seed matches Some(v) ==> x0 == seed_state(v),
            strategy == SelectionStrategy::Random && max_nodes < 256 ==> random_draws(sequence@, max_nodes, k, x0),
            on_found == f0,
            reported(f0, sequence@),
        ensures
            on_found == f0,
            reported(f0, sequence@),
            strategy != SelectionStrategy::Random ==> greedy(sequence@, max_nodes, k, backing_order(strategy)),
            seed matches Some(v) ==> x0 == seed_state(v),
            strategy == SelectionStrategy::Random && max_nodes < 256 ==> random_draws(sequence@, max_nodes, k, x0),
            done == count || exhausted(sequence@, max_nodes, k),
            sequence@.len() == done,
            done <= count,
            sequence_ok(sequence@, max_nodes, k),
            max_nodes < 256 ==> no_earlier_embeds(sequence@),
        decreases count - done,
    {
        let position = done + 1;
        let allowed_size = if position < max_nodes {
            position
        } else {
            max_nodes
        };
        let rebuild = match pool_size {
            Some(ps) => ps != allowed_size,
            None => true,
        };
        if rebuild {
            pool = rebuild_pool(&sequence, allowed_size, k, strategy, &mut cache, Ghost(max_nodes));
            pool_size = Some(allowed_size);
        }
        assert(pool_size == Some(allowed_size));
        // Scan: pick the next candidate according to strategy.
        let found = match strategy {
            SelectionStrategy::Random => pool.find_random_live(&mut rng),
            _ => pool.find_first_live(),
        };
        match found {
            None => {
                proof {
                    if strategy == SelectionStrategy::Random {
                        lemma_live_zero(pool.rejected@, pool.rejected@.len() as int);
                    }
                    lemma_all_rejected_exhausted(pool, sequence@, allowed_size as nat, k, max_nodes);
                }
                break;
            },
            Some((idx, _, _)) => {
                proof {
                    if strategy == SelectionStrategy::Random {
                        assert(rng@ == xorshift_iter(x0, (sequence@.len() + 1) as nat));
                    }
                }
                accept_candidate(&mut pool, &mut sequence, idx, &mut on_found, allowed_size, k, max_nodes, strategy, Ghost(x0));
            },
        }
        done += 1;
    }
    proof {
        lemma_reported_all(f0, sequence@);
    }
    sequence
}

/// `row` lists, once each and never `i` itself, candidates into which candidate
/// `i` embeds, among them every one whose fingerprint check passes.
pub open spec fn row_ok(row: Seq<usize>, i: int, all: Seq<(String, Tree)>, fps: Seq<TreeFingerprint>) -> bool {
    &&& row.no_duplicates()
    &&& !row.contains(i as usize)
    &&& forall|m: int| 0 <= m < row.len() ==> #[trigger] row[m] < all.len() && embeds_spec(all[i].1@, all[row[m] as int].1@)
    &&& forall|x: usize| x < all.len() && x != i && TreeFingerprint::compatible_spec(fps[i], fps[x as int]) && embeds_spec(
        all[i].1@,
        all[x as int].1@,
    ) ==> #[trigger] row.contains(x)
}

/// The candidates that candidate `i` embeds into, in index order; the
/// fingerprint check comes first and spares the embedding test where it fails.
fn exclusion_row(i: usize, all: &Vec<(String, Tree)>, fps: &Vec<TreeFingerprint>, k: u32, max_nodes: usize) -> (row: Vec<usize>)
    requires
        fps@.len() == all@.len(),
        k < 32,
        max_nodes <= i32::MAX,
        forall|q: int| 0 <= q < all@.len() ==> candidate_upto(#[trigger] all@[q], k, max_nodes as nat),
        i < all@.len(),
    ensures
        row_ok(row@, i as int, all@, fps@),
{
    let n = all.len();
    let mut row: Vec<usize> = Vec::new();
    let mut j: usize = 0;
    while j < n
        invariant
            n == all@.len(),
            fps@.len() == n,
            k < 32,
            max_nodes <= i32::MAX,
            forall|q: int| 0 <= q < n ==> candidate_upto(#[trigger] all@[q], k, max_nodes as nat),
            i < n,
            j <= n,
            forall|a: int, b: int| 0 <= a < b < row@.len() ==> #[trigger] row@[a] < #[trigger] row@[b],
            forall|a: int| 0 <= a < row@.len() ==> #[trigger] row@[a] < j && row@[a] != i
                && TreeFingerprint::compatible_spec(fps@[i as int], fps@[row@[a] as int]) && embeds_spec(
                all@[i as int].1@,
                all@[row@[a] as int].1@,
            ),
            forall|x: usize| x < j && x != i ==> (#[trigger] row@.contains(x) <== (TreeFingerprint::compatible_spec(
                fps@[i as int],
                fps@[x as int],
            ) && embeds_spec(all@[i as int].1@, all@[x as int].1@))),
        decreases n - j,
    {
        if j != i {
            if TreeFingerprint::compatible(&fps[i], &fps[j]) {
                proof {
                    assert(candidate_upto(all@[i as int], k, max_nodes as nat));
                    assert(candidate_upto(all@[j as int], k, max_nodes as nat));
                    lemma_table_fits(all@[i as int].1@, all@[j as int].1@, k);
                }
                if embeds(&all[i].1, &all[j].1) {
                    let ghost before = row@;
                    row.push(j);
                    proof {
                        assert(row@[row@.len() - 1] == j);
                        assert forall|x: usize| x < j && x != i && (TreeFingerprint::compatible_spec(
                            fps@[i as int],
                            fps@[x as int],
                        ) && embeds_spec(all@[i as int].1@, all@[x as int].1@)) implies #[trigger] row@.contains(x) by {
                            assert(before.contains(x));
                            let q = choose|q: int| 0 <= q < before.len() && before[q] == x;
                            assert(row@[q] == x);
                        }
                    }
                }
            }
        }
        j += 1;
    }
    proof {
        assert forall|a: int, b: int| 0 <= a < row@.len() && 0 <= b < row@.len() && a != b implies row@[a] != row@[b] by {
            if a < b {
                assert(row@[a] < row@[b]);
            } else {
                assert(row@[b] < row@[a]);
            }
        }
        assert(!row@.contains(i)) by {
            if row@.contains(i) {
                let q = choose|q: int| 0 <= q < row@.len() && row@[q] == i;
            }
        }
    }
    row
}

/// The exclusion rows of all candidates, computed in parallel with rayon's
/// `into_par_iter().map(..).collect()`, row `i` by `exclusion_row(i, ..)`.
///
/// Trusted: rayon collects an indexed parallel map over `0..n` into a vector
/// with one result per index, in index order; each result is what
/// `exclusion_row` returns for that index.
#[verifier::external_body]
fn par_exclusion_rows(all: &Vec<(String, Tree)>, fps: &Vec<TreeFingerprint>, k: u32, max_nodes: usize) -> (rows: Vec<
    Vec<usize>,
>)
    requires
        fps@.len() == all@.len(),
        k < 32,
        max_nodes <= i32::MAX,
        forall|q: int| 0 <= q < all@.len() ==> candidate_upto(#[trigger] all@[q], k, max_nodes as nat),
    ensures
        rows@.len() == all@.len(),
        forall|i: int| 0 <= i < rows@.len() ==> row_ok((#[trigger] rows@[i])@, i, all@, fps@),
{
    (0..all.len()).into_par_iter().map(|i| exclusion_row(i, all, fps, k, max_nodes)).collect()
}

/// Accepts the pool's candidate `idx` as the next tree: takes it out of the
/// pool, reports it, sweeps out every candidate it embeds into and appends it.
fn accept_candidate<F: FnMut(&SequenceEntry)>(
    pool: &mut CandidatePool,
    sequence: &mut Vec<SequenceEntry>,
    idx: usize,
    on_found: &mut F,
    allowed_size: usize,
    k: u32,
    max_nodes: usize,
    strategy: SelectionStrategy,
    Ghost(x0): Ghost<u64>,
)
    requires
        k < 32,
        max_nodes <= i32::MAX,
        allowed_size as nat == budget(old(sequence)@.len() as int, max_nodes),
        old(sequence)@.len() < usize::MAX,
        forall|e: &SequenceEntry| call_requires(*old(on_found), (e,)),
        sequence_ok(old(sequence)@, max_nodes, k),
        max_nodes < 256 ==> no_earlier_embeds(old(sequence)@),
        old(pool).ok(),
        pool_entries_ok(*old(pool), k, allowed_size as nat),
        pool_covers(*old(pool), allowed_size as nat, k),
        pool_justified(*old(pool), old(sequence)@),
        max_nodes < 256 ==> pool_clear(*old(pool), old(sequence)@),
        sorted_by(old(pool).entries@, cand_order(backing_order(strategy))),
        distinct_forms(old(pool).entries@),
        idx < old(pool).entries@.len(),
        !old(pool).rejected@[idx as int],
        strategy != SelectionStrategy::Random ==> forall|j: int| 0 <= j < idx ==> #[trigger] old(pool).rejected@[j],
        strategy == SelectionStrategy::Random ==> live_in(old(pool).rejected@, idx as int) == (xorshift_iter(
            x0,
            (old(sequence)@.len() + 1) as nat,
        ) as int) % (live_in(old(pool).rejected@, old(pool).rejected@.len() as int) as int),
        strategy != SelectionStrategy::Random ==> greedy(old(sequence)@, max_nodes, k, backing_order(strategy)),
        strategy == SelectionStrategy::Random && max_nodes < 256 ==> random_draws(old(sequence)@, max_nodes, k, x0),
        reported(*old(on_found), old(sequence)@),
    ensures
        final(sequence)@.len() == old(sequence)@.len() + 1,
        *final(on_found) == *old(on_found),
        sequence_ok(final(sequence)@, max_nodes, k),
        max_nodes < 256 ==> no_earlier_embeds(final(sequence)@),
        final(pool).ok(),
        final(pool).entries == old(pool).entries,
        pool_justified(*final(pool), final(sequence)@),
        max_nodes < 256 ==> pool_clear(*final(pool), final(sequence)@),
        strategy != SelectionStrategy::Random ==> greedy(final(sequence)@, max_nodes, k, backing_order(strategy)),
        strategy == SelectionStrategy::Random && max_nodes < 256 ==> random_draws(final(sequence)@, max_nodes, k, x0),
        reported(*old(on_found), final(sequence)@),
{
    let ghost f0 = *on_found;
    let ghost cand = pool.entries@[idx as int];
    assert(candidate_upto(cand, k, allowed_size as nat));
    let fingerprint = TreeFingerprint::compute(&pool.entries[idx].1);
    let canon_owned = pool.entries[idx].0.clone();
    let tree_owned = pool.entries[idx].1.clone();
    let ghost pool0 = *pool;
    // Mark accepted entry as permanently rejected (each tree used at most once).
    pool.reject(idx);
    let entry = SequenceEntry { index: sequence.len() + 1, tree: tree_owned, canonical: canon_owned, fingerprint };
    assert(entry.tree@ == cand.1@);
    assert(entry_ok(entry, max_nodes, k));
    on_found(&entry);
    proof {
        lemma_sweep_ready(*pool, entry.tree@, k, allowed_size as nat);
    }
    let ghost pool1 = *pool;
    // Post-acceptance sweep: prune all candidates this tree embeds into.
    let _ = pool.sweep(&entry.tree, &entry.fingerprint);
    let ghost old_seq = sequence@;
    proof {
        lemma_accept(pool0, pool1, *pool, old_seq, entry, idx as int, k, max_nodes, allowed_size as nat);
        if strategy != SelectionStrategy::Random {
            lemma_greedy_step(pool0, old_seq, entry, idx as int, k, max_nodes, allowed_size as nat, backing_order(strategy));
        } else if max_nodes < 256 {
            lemma_random_step(pool0, old_seq, entry, idx as int, k, max_nodes, x0);
        }
    }
    sequence.push(entry);
    proof {
        lemma_push_ok(old_seq, entry, max_nodes, k);
        lemma_reported_push(f0, old_seq, entry);
    }
}

/// How many trees of the path `s` bar candidate `x`: `x` itself, or a tree
/// whose exclusion list holds `x`.
spec fn refs(s: Seq<usize>, ei: Seq<Vec<usize>>, x: usize) -> nat
    decreases s.len(),
{
    if s.len() == 0 {
        0
    } else {
        refs(s.drop_last(), ei, x) + if s.last() == x || ei[s.last() as int]@.contains(x) {
            1nat
        } else {
            0nat
        }
    }
}

/// 1 when `l` holds `x`, else 0.
spec fn bump(l: Seq<usize>, x: usize) -> nat {
    if l.contains(x) {
        1
    } else {
        0
    }
}

proof fn lemma_refs_bound(s: Seq<usize>, ei: Seq<Vec<usize>>, x: usize)
    ensures
        refs(s, ei, x) <= s.len(),
    decreases s.len(),
{
    if s.len() > 0 {
        lemma_refs_bound(s.drop_last(), ei, x);
    }
}

proof fn lemma_refs_zero(s: Seq<usize>, ei: Seq<Vec<usize>>, x: usize)
    requires
        refs(s, ei, x) == 0,
    ensures
        forall|p: int| 0 <= p < s.len() ==> #[trigger] s[p] != x && !ei[s[p] as int]@.contains(x),
    decreases s.len(),
{
    if s.len() > 0 {
        lemma_refs_zero(s.drop_last(), ei, x);
        assert forall|p: int| 0 <= p < s.len() implies #[trigger] s[p] != x && !ei[s[p] as int]@.contains(x) by {
            if p < s.len() - 1 {
                assert(s[p] == s.drop_last()[p]);
            }
        }
    }
}

/// The indices `s` form a valid sequence of candidates: each in range and within
/// the node budget of its position, pairwise distinct, and no earlier one listing
/// a later one as excluded.
pub open spec fn path_ok(s: Seq<usize>, candidates: Seq<(String, Tree)>, ei: Seq<Vec<usize>>, max_nodes: usize) -> bool {
    &&& forall|p: int| 0 <= p < s.len() ==> (#[trigger] s[p]) < candidates.len() && candidates[s[p] as int].1@.len() <= p + 1
        && candidates[s[p] as int].1@.len() <= max_nodes
    &&& forall|p: int, q: int| #![trigger s[p], s[q]] 0 <= p < q < s.len() ==> s[p] != s[q] && !ei[s[p] as int]@.contains(s[q])
}

/// Exclusion lists for `n` candidates: each lists other candidates, without repeats.
spec fn lists_ok(ei: Seq<Vec<usize>>, n: nat) -> bool {
    &&& ei.len() == n
    &&& forall|i: int| 0 <= i < n ==> (#[trigger] ei[i])@.no_duplicates() && !ei[i]@.contains(i as usize)
    &&& forall|i: int, m: int| 0 <= i < n && 0 <= m < ei[i]@.len() ==> #[trigger] ei[i]@[m] < n
}

/// `a` and `b` agree before position `p`, where `a` has the smaller index.
pub open spec fn lex_split(a: Seq<usize>, b: Seq<usize>, p: int) -> bool {
    &&& 0 <= p < a.len()
    &&& p < b.len()
    &&& a[p] < b[p]
    &&& a.take(p) == b.take(p)
}

/// `a` comes no later than `b` in lexicographic order of indices.
pub open spec fn lex_le(a: Seq<usize>, b: Seq<usize>) -> bool {
    a == b || exists|p: int| #[trigger] lex_split(a, b, p)
}

/// A path is the first of its own length among the paths that extend it.
proof fn lemma_lex_self(b: Seq<usize>, s: Seq<usize>, candidates: Seq<(String, Tree)>, ei: Seq<Vec<usize>>, max_nodes: usize)
    requires
        b == s,
    ensures
        forall|q: Seq<usize>| #[trigger] path_ok(q, candidates, ei, max_nodes) && extends(q, s) && q.len() == b.len()
            ==> lex_le(b, q),
{
    assert forall|q: Seq<usize>| #[trigger] path_ok(q, candidates, ei, max_nodes) && extends(q, s) && q.len() == b.len()
        implies lex_le(b, q) by {
        assert(q =~= b);
    }
}

/// A best path whose entry at the branching position is below `i` precedes
/// every path through `i` there.
proof fn lemma_lex_keeps(b: Seq<usize>, s: Seq<usize>, i: usize, candidates: Seq<(String, Tree)>, ei: Seq<Vec<usize>>, max_nodes: usize)
    requires
        extends(b, s),
        b.len() > s.len(),
        b[s.len() as int] < i,
        forall|q: Seq<usize>| #[trigger] path_ok(q, candidates, ei, max_nodes) && extends(q, s) && q.len() == b.len()
            && q[s.len() as int] < i ==> lex_le(b, q),
    ensures
        forall|q: Seq<usize>| #[trigger] path_ok(q, candidates, ei, max_nodes) && extends(q, s) && q.len() == b.len()
            && q[s.len() as int] < i + 1 ==> lex_le(b, q),
{
    let l = s.len() as int;
    assert forall|q: Seq<usize>| #[trigger] path_ok(q, candidates, ei, max_nodes) && extends(q, s) && q.len() == b.len()
        && q[l] < i + 1 implies lex_le(b, q) by {
        if q[l] == i {
            assert(b.take(l) =~= q.take(l)) by {
                assert forall|p: int| 0 <= p < l implies b.take(l)[p] == q.take(l)[p] by {
                    assert(b[p] == s[p] && q[p] == s[p]);
                }
            }
            assert(lex_split(b, q, l));
        }
    }
}

/// A best path found below child `i` precedes every path of its length
/// through a child up to `i`.
proof fn lemma_lex_after_child(
    before: Seq<usize>,
    b: Seq<usize>,
    s: Seq<usize>,
    next: Seq<usize>,
    i: usize,
    candidates: Seq<(String, Tree)>,
    ei: Seq<Vec<usize>>,
    max_nodes: usize,
    target: usize,
)
    requires
        next == s.push(i),
        extends(b, next),
        b.len() > before.len(),
        target > 0 ==> b.len() <= target,
        forall|q: Seq<usize>| #[trigger] path_ok(q, candidates, ei, max_nodes) && extends(q, s) && q.len() > s.len() && q[s.len() as int]
            < i ==> capped(q.len(), target) <= before.len(),
        forall|q: Seq<usize>| #[trigger] path_ok(q, candidates, ei, max_nodes) && extends(q, next) && q.len() == b.len() ==> lex_le(
            b,
            q,
        ),
    ensures
        forall|q: Seq<usize>| #[trigger] path_ok(q, candidates, ei, max_nodes) && extends(q, s) && q.len() == b.len()
            && q[s.len() as int] < i + 1 ==> lex_le(b, q),
{
    let l = s.len() as int;
    assert forall|q: Seq<usize>| #[trigger] path_ok(q, candidates, ei, max_nodes) && extends(q, s) && q.len() == b.len()
        && q[l] < i + 1 implies lex_le(b, q) by {
        assert(b.len() > l);
        if q[l] == i {
            assert forall|p: int| 0 <= p < next.len() implies #[trigger] q[p] == next[p] by {
                if p < l {
                    assert(q[p] == s[p]);
                }
            }
            assert(extends(q, next));
        } else {
            assert(capped(q.len(), target) <= before.len());
        }
    }
}

/// The entries of a sequence given by candidate indices, numbered from 1.
/// `r` holds the entries of the candidates picked by `indices`, numbered from 1.
pub open spec fn entries_for(
    r: Seq<SequenceEntry>,
    candidates: Seq<(String, Tree)>,
    fingerprints: Seq<TreeFingerprint>,
    indices: Seq<usize>,
) -> bool {
    &&& r.len() == indices.len()
    &&& forall|p: int| 0 <= p < r.len() ==> (#[trigger] r[p]).index == p + 1 && r[p].tree@ == candidates[indices[p] as int].1@
        && r[p].canonical == candidates[indices[p] as int].0 && r[p].fingerprint == fingerprints[indices[p] as int]
}

/// `a` and `b` hold entries with the same numbers, trees, forms and fingerprints.
pub open spec fn same_entries(a: Seq<SequenceEntry>, b: Seq<SequenceEntry>) -> bool {
    &&& a.len() == b.len()
    &&& forall|p: int| 0 <= p < a.len() ==> (#[trigger] a[p]).index == b[p].index && a[p].tree@ == b[p].tree@
        && a[p].canonical == b[p].canonical && a[p].fingerprint == b[p].fingerprint
}

fn entries_of(candidates: &[(String, Tree)], fingerprints: &[TreeFingerprint], indices: &[usize]) -> (r: Vec<SequenceEntry>)
    requires
        fingerprints@.len() == candidates@.len(),
        forall|p: int| 0 <= p < indices@.len() ==> #[trigger] indices@[p] < candidates@.len(),
    ensures
        entries_for(r@, candidates@, fingerprints@, indices@),
        r@.len() == indices@.len(),
        forall|p: int| 0 <= p < r@.len() ==> (#[trigger] r@[p]).index == p + 1
            && r@[p].tree@ == candidates@[indices@[p] as int].1@
            && r@[p].canonical == candidates@[indices@[p] as int].0
            && r@[p].fingerprint == fingerprints@[indices@[p] as int],
{
    let mut r: Vec<SequenceEntry> = Vec::with_capacity(indices.len());
    let mut pos: usize = 0;
    while pos < indices.len()
        invariant
            fingerprints@.len() == candidates@.len(),
            forall|p: int| 0 <= p < indices@.len() ==> #[trigger] indices@[p] < candidates@.len(),
            pos <= indices@.len(),
            r@.len() == pos,
            forall|p: int| 0 <= p < r@.len() ==> (#[trigger] r@[p]).index == p + 1
                && r@[p].tree@ == candidates@[indices@[p] as int].1@
                && r@[p].canonical == candidates@[indices@[p] as int].0
                && r@[p].fingerprint == fingerprints@[indices@[p] as int],
        decreases indices@.len() - pos,
    {
        let idx = indices[pos];
        let cand = &candidates[idx];
        r.push(SequenceEntry {
            index: pos + 1,
            tree: cand.1.clone(),
            canonical: cand.0.clone(),
            fingerprint: fingerprints[idx],
        });
        pos += 1;
    }
    r
}

fn copy_path(v: &Vec<usize>) -> (r: Vec<usize>)
    ensures
        r@ == v@,
{
    let mut r: Vec<usize> = Vec::with_capacity(v.len());
    let mut i: usize = 0;
    while i < v.len()
        invariant
            i <= v@.len(),
            r@ == v@.take(i as int),
        decreases v@.len() - i,
    {
        r.push(v[i]);
        i += 1;
        assert(r@ == v@.take(i as int));
    }
    assert(v@.take(v@.len() as int) == v@);
    r
}

/// `x`, cut down to `target` when a positive target is set.
pub open spec fn capped(x: nat, target: usize) -> nat {
    if target > 0 && x > target {
        target as nat
    } else {
        x
    }
}

/// `q` starts with `s`.
spec fn extends(q: Seq<usize>, s: Seq<usize>) -> bool {
    &&& s.len() <= q.len()
    &&& forall|p: int| 0 <= p < s.len() ==> #[trigger] q[p] == s[p]
}

/// 1 for each unset count among the first `c`, 0 for the others.
spec fn free_marks(rej: Seq<usize>, c: nat) -> Seq<nat> {
    Seq::new(c, |x: int| if rej[x] == 0 { 1nat } else { 0nat })
}

proof fn lemma_refs_clear(s: Seq<usize>, ei: Seq<Vec<usize>>, x: usize)
    requires
        forall|p: int| 0 <= p < s.len() ==> #[trigger] s[p] != x && !ei[s[p] as int]@.contains(x),
    ensures
        refs(s, ei, x) == 0,
    decreases s.len(),
{
    if s.len() > 0 {
        assert forall|p: int| 0 <= p < s.drop_last().len() implies #[trigger] s.drop_last()[p] != x
            && !ei[s.drop_last()[p] as int]@.contains(x) by {
            assert(s.drop_last()[p] == s[p]);
        }
        lemma_refs_clear(s.drop_last(), ei, x);
        assert(s.last() == s[s.len() - 1]);
    }
}

/// A path extending `s` adds at most as many candidates as are free after `s`.
proof fn lemma_tail_bound(
    q: Seq<usize>,
    s: Seq<usize>,
    candidates: Seq<(String, Tree)>,
    ei: Seq<Vec<usize>>,
    max_nodes: usize,
    rej: Seq<usize>,
)
    requires
        path_ok(q, candidates, ei, max_nodes),
        extends(q, s),
        rej.len() == candidates.len(),
        forall|x: usize| x < candidates.len() ==> #[trigger] rej[x as int] == refs(s, ei, x),
    ensures
        q.len() <= s.len() + seq_sum(free_marks(rej, candidates.len())),
{
    let n = candidates.len();
    let w = free_marks(rej, n);
    let f = Seq::new((q.len() - s.len()) as nat, |j: int| q[s.len() + j] as int);
    assert forall|j: int| 0 <= j < f.len() implies 0 <= #[trigger] f[j] < w.len() && w[f[j]] == 1 by {
        let x = q[s.len() + j];
        assert(x < n);
        assert forall|p: int| 0 <= p < s.len() implies #[trigger] s[p] != x && !ei[s[p] as int]@.contains(x) by {
            assert(q[p] == s[p]);
        }
        lemma_refs_clear(s, ei, x);
        assert(rej[(x as usize) as int] == 0);
    }
    assert forall|a: int, b: int| 0 <= a < f.len() && 0 <= b < f.len() && a != b implies f[a] != f[b] by {
        if a < b {
            assert(q[s.len() + a] != q[s.len() + b]);
        } else {
            assert(q[s.len() + b] != q[s.len() + a]);
        }
    }
    crate::embed_spec::lemma_sum_injective(w, f);
    let sel = f.map_values(|x: int| w[x]);
    assert forall|j: int| 0 <= j < sel.len() implies sel[j] == 1 by {
        assert(w[f[j]] == 1);
    }
    crate::embed_spec::lemma_sum_ones(sel);
}

/// Recursive DFS with refcount-based rejection and backtracking.
///
/// `rejected[i]` counts how many currently-accepted trees force candidate `i`
/// to be unavailable. A candidate is usable iff `rejected[i] == 0`.
///
/// When candidate `chosen` is accepted:
///   - `rejected[chosen] += 1`   (cannot reuse the same tree)
///   - `rejected[j] += 1` for all j in `embeds_into[chosen]`  (no later tree may have
///     an earlier tree embed into it)
///
/// Backtracking is the exact mirror (all decremented).
fn dfs_optimal<F: FnMut(&[SequenceEntry])>(
    candidates: &[(String, Tree)],
    fingerprints: &[TreeFingerprint],
    embeds_into: &[Vec<usize>],
    rejected: &mut Vec<usize>,
    sequence: &mut Vec<usize>,
    best: &mut Vec<usize>,
    max_nodes: usize,
    target: usize,
    on_new_best: &mut F,
)
    requires
        fingerprints@.len() == candidates@.len(),
        lists_ok(embeds_into@, candidates@.len()),
        old(rejected)@.len() == candidates@.len(),
        forall|x: usize| x < candidates@.len() ==> #[trigger] old(rejected)@[x as int] == refs(
            old(sequence)@,
            embeds_into@,
            x,
        ),
        path_ok(old(sequence)@, candidates@, embeds_into@, max_nodes),
        path_ok(old(best)@, candidates@, embeds_into@, max_nodes),
        target > 0 ==> old(sequence)@.len() <= target && old(best)@.len() <= target,
        forall|e: &[SequenceEntry]| call_requires(*old(on_new_best), (e,)),
    ensures
        final(rejected)@ == old(rejected)@,
        final(sequence)@ == old(sequence)@,
        path_ok(final(best)@, candidates@, embeds_into@, max_nodes),
        final(best)@.len() >= old(best)@.len(),
        forall|e: &[SequenceEntry]| call_requires(*final(on_new_best), (e,)),
        *final(on_new_best) == *old(on_new_best),
        final(best)@ != old(best)@ ==> exists|e: &[SequenceEntry]| #[trigger] call_ensures(*old(on_new_best), (e,), ())
            && entries_for(e@, candidates@, fingerprints@, final(best)@),
        forall|q: Seq<usize>| #[trigger] path_ok(q, candidates@, embeds_into@, max_nodes) && extends(q, old(sequence)@)
            ==> capped(q.len(), target) <= final(best)@.len(),
        final(best)@ == old(best)@ || extends(final(best)@, old(sequence)@),
        target > 0 ==> final(best)@.len() <= target,
        final(best)@ != old(best)@ ==> final(best)@.len() > old(best)@.len() && forall|q: Seq<usize>| #[trigger] path_ok(
            q,
            candidates@,
            embeds_into@,
            max_nodes,
        ) && extends(q, old(sequence)@) && q.len() == final(best)@.len() ==> lex_le(final(best)@, q),
    decreases candidates@.len() - old(sequence)@.len(),
{
    let ghost n = candidates@.len();
    assert(n == candidates.len());
    let ghost ei = embeds_into@;
    let ghost seq0 = sequence@;
    let ghost rej0 = rejected@;
    let ghost best0 = best@;
    let ghost f0 = *on_new_best;
    proof {
        let f = seq0.map_values(|v: usize| v as int);
        assert forall|a: int, b: int| 0 <= a < f.len() && 0 <= b < f.len() && a != b implies f[a] != f[b] by {
            if a < b {
                assert(seq0[a] != seq0[b]);
            } else {
                assert(seq0[b] != seq0[a]);
            }
        }
        assert forall|a: int| 0 <= a < f.len() implies 0 <= #[trigger] f[a] < n by {}
        crate::embed_spec::lemma_injective_len(f, n as int);
    }
    // Upper-bound pruning: even if every live candidate is usable, can we beat `best`?
    let mut live: usize = 0;
    let mut c: usize = 0;
    while c < rejected.len()
        invariant
            c <= rejected@.len(),
            live <= c,
            live == seq_sum(free_marks(rejected@, c as nat)),
        decreases rejected@.len() - c,
    {
        proof {
            assert(free_marks(rejected@, (c + 1) as nat).drop_last() =~= free_marks(rejected@, c as nat));
        }
        if rejected[c] == 0 {
            live += 1;
        }
        c += 1;
    }
    if best.len() >= sequence.len() && live <= best.len() - sequence.len() {
        proof {
            assert forall|q: Seq<usize>| #[trigger] path_ok(q, candidates@, ei, max_nodes) && extends(q, seq0) implies capped(
                q.len(),
                target,
            ) <= best@.len() by {
                lemma_tail_bound(q, seq0, candidates@, ei, max_nodes, rej0);
            }
        }
        return;
    }
    // Target reached — record if best and stop going deeper.
    if target > 0 && sequence.len() >= target {
        if sequence.len() > best.len() {
            *best = copy_path(sequence);
            proof {
                lemma_lex_self(best@, seq0, candidates@, ei, max_nodes);
            }
            let entries = entries_of(candidates, fingerprints, best.as_slice());
            let sl = entries.as_slice();
            on_new_best(sl);
        }
        return;
    }
    let allowed_size = if sequence.len() < max_nodes {
        sequence.len() + 1
    } else {
        max_nodes
    };
    let mut extended = false;
    let mut i: usize = 0;
    while i < candidates.len()
        invariant
            n == candidates@.len(),
            ei == embeds_into@,
            fingerprints@.len() == n,
            n <= usize::MAX,
            lists_ok(ei, n),
            rejected@ == rej0,
            sequence@ == seq0,
            old(sequence)@ == seq0,
            rej0.len() == n,
            forall|x: int| 0 <= x < n ==> #[trigger] rej0[x] == refs(seq0, ei, x as usize),
            path_ok(seq0, candidates@, ei, max_nodes),
            seq0.len() <= n,
            path_ok(best@, candidates@, ei, max_nodes),
            best@.len() >= best0.len(),
            allowed_size <= max_nodes,
            allowed_size <= seq0.len() + 1,
            allowed_size == seq0.len() + 1 || allowed_size == max_nodes,
            forall|e: &[SequenceEntry]| call_requires(f0, (e,)),
            *on_new_best == f0,
            best@ != best0 ==> exists|e: &[SequenceEntry]| #[trigger] call_ensures(f0, (e,), ()) && entries_for(
                e@,
                candidates@,
                fingerprints@,
                best@,
            ),
            i <= n,
            forall|q: Seq<usize>| #[trigger] path_ok(q, candidates@, ei, max_nodes) && extends(q, seq0) && q.len()
                > seq0.len() && q[seq0.len() as int] < i ==> capped(q.len(), target) <= best@.len(),
            extended ==> capped(seq0.len() + 1, target) <= best@.len(),
            best@ == best0 || extends(best@, seq0),
            target > 0 ==> seq0.len() < target,
            target > 0 ==> best0.len() <= target && best@.len() <= target,
            best@ != best0 ==> best@.len() > best0.len() && best@.len() > seq0.len() && best@[seq0.len() as int] < i,
            best@ != best0 ==> forall|q: Seq<usize>| #[trigger] path_ok(q, candidates@, ei, max_nodes) && extends(q, seq0)
                && q.len() == best@.len() && q[seq0.len() as int] < i ==> lex_le(best@, q),
        decreases n - i,
    {
        let ghost best_before = best@;
        if rejected[i] == 0 && candidates[i].1.size() <= allowed_size {
            proof {
                lemma_refs_zero(seq0, ei, i);
            }
            let ghost next = seq0.push(i);
            proof {
                let f = next.map_values(|v: usize| v as int);
                assert forall|a: int| 0 <= a < f.len() implies 0 <= #[trigger] f[a] < n by {
                    if a < seq0.len() {
                        assert(next[a] == seq0[a]);
                    }
                }
                assert forall|a: int, b: int| 0 <= a < f.len() && 0 <= b < f.len() && a != b implies f[a] != f[b] by {
                    if a < seq0.len() && b < seq0.len() {
                        if a < b {
                            assert(seq0[a] != seq0[b]);
                        } else {
                            assert(seq0[b] != seq0[a]);
                        }
                    } else if a < seq0.len() {
                        assert(seq0[a] != i);
                    } else {
                        assert(seq0[b] != i);
                    }
                }
                crate::embed_spec::lemma_injective_len(f, n as int);
            }
            // Tentatively accept candidate i.
            rejected.set(i, rejected[i] + 1);
            let list = &embeds_into[i];
            assert(list@ == ei[i as int]@);
            let mut m: usize = 0;
            while m < list.len()
                invariant
                    n == candidates@.len(),
                    ei == embeds_into@,
                    lists_ok(ei, n),
                    i < n,
                    list@ == ei[i as int]@,
                    m <= list@.len(),
                    seq0.len() + 1 <= n,
                    n <= usize::MAX,
                    rejected@.len() == n,
                    forall|x: usize| x < n ==> #[trigger] rejected@[x as int] == refs(seq0, ei, x) + (if x == i {
                        1nat
                    } else {
                        0nat
                    }) + bump(list@.take(m as int), x),
                decreases list@.len() - m,
            {
                let j = list[m];
                assert(j < n);
                proof {
                    lemma_refs_bound(seq0, ei, j);
                    assert(!list@.take(m as int).contains(j)) by {
                        if list@.take(m as int).contains(j) {
                            let q = choose|q: int| 0 <= q < m && list@.take(m as int)[q] == j;
                            assert(list@[q] == list@[m as int]);
                        }
                    }
                    assert(j != i);
                    assert(rejected@[j as int] == refs(seq0, ei, j) + 0 + bump(list@.take(m as int), j));
                }
                rejected.set(j, rejected[j] + 1);
                m += 1;
                proof {
                    assert forall|x: usize| x < n implies #[trigger] rejected@[x as int] == refs(seq0, ei, x) + (if x == i {
                        1nat
                    } else {
                        0nat
                    }) + bump(list@.take(m as int), x) by {
                        assert(list@.take(m as int) == list@.take(m - 1).push(j));
                        assert(list@.take(m as int)[m - 1] == j);
                        if x != j {
                            assert(list@.take(m as int).contains(x) == list@.take(m - 1).contains(x));
                        }
                    }
                }
            }
            proof {
                assert(list@.take(list@.len() as int) == list@);
                assert forall|x: int| 0 <= x < n implies #[trigger] rejected@[x] == refs(next, ei, x as usize) by {
                    assert(next.drop_last() == seq0);
                    assert(rejected@[(x as usize) as int] == rejected@[x]);
                }
            }
            sequence.push(i);
            extended = true;
            assert(sequence@ == next);
            assert(next.len() <= n);
            proof {
                assert forall|p: int| 0 <= p < next.len() implies (#[trigger] next[p]) < n
                    && candidates@[next[p] as int].1@.len() <= p + 1 && candidates@[next[p] as int].1@.len() <= max_nodes by {
                    if p < seq0.len() {
                        assert(next[p] == seq0[p]);
                    }
                }
                assert forall|p: int, q: int| #![trigger next[p], next[q]] 0 <= p < q < next.len() implies next[p] != next[q]
                    && !ei[next[p] as int]@.contains(next[q]) by {
                    assert(next[p] == seq0[p]);
                    if q < seq0.len() {
                        assert(next[q] == seq0[q]);
                    }
                }
            }
            assert(path_ok(next, candidates@, ei, max_nodes));
            dfs_optimal(candidates, fingerprints, embeds_into, rejected, sequence, best, max_nodes, target, on_new_best);
            proof {
                if best@ != best_before {
                    assert(extends(best@, next));
                    assert forall|p: int| 0 <= p < seq0.len() implies #[trigger] best@[p] == seq0[p] by {
                        assert(best@[p] == next[p]);
                    }
                    assert(best@[seq0.len() as int] == next[seq0.len() as int]);
                    lemma_lex_after_child(best_before, best@, seq0, next, i, candidates@, ei, max_nodes, target);
                } else if best@ != best0 {
                    lemma_lex_keeps(best@, seq0, i, candidates@, ei, max_nodes);
                }
                assert(extends(next, next));
                assert(path_ok(next, candidates@, ei, max_nodes));
                assert(capped(next.len(), target) <= best@.len());
                assert forall|q: Seq<usize>| #[trigger] path_ok(q, candidates@, ei, max_nodes) && extends(q, seq0) && q.len()
                    > seq0.len() && q[seq0.len() as int] < i + 1 implies capped(q.len(), target) <= best@.len() by {
                    if q[seq0.len() as int] == i {
                        assert(extends(q, next));
                    }
                }
            }
            // Undo.
            sequence.pop();
            assert(sequence@ =~= seq0);
            let ghost after = rejected@;
            assert(after[i as int] >= 1) by {
                assert(next.drop_last() == seq0);
            }
            rejected.set(i, rejected[i] - 1);
            let mut m: usize = 0;
            while m < list.len()
                invariant
                    n == candidates@.len(),
                    ei == embeds_into@,
                    lists_ok(ei, n),
                    i < n,
                    list@ == ei[i as int]@,
                    m <= list@.len(),
                    rejected@.len() == n,
                    forall|x: usize| x < n ==> #[trigger] rejected@[x as int] + bump(list@.take(m as int), x) == refs(
                        seq0,
                        ei,
                        x,
                    ) + bump(list@, x),
                decreases list@.len() - m,
            {
                let j = list[m];
                assert(j < n);
                proof {
                    assert(!list@.take(m as int).contains(j)) by {
                        if list@.take(m as int).contains(j) {
                            let q = choose|q: int| 0 <= q < m && list@.take(m as int)[q] == j;
                            assert(list@[q] == list@[m as int]);
                        }
                    }
                    assert(list@.contains(j)) by {
                        assert(list@[m as int] == j);
                    }
                }
                rejected.set(j, rejected[j] - 1);
                m += 1;
                proof {
                    assert forall|x: usize| x < n implies #[trigger] rejected@[x as int] + bump(list@.take(m as int), x) == refs(
                        seq0,
                        ei,
                        x,
                    ) + bump(list@, x) by {
                        assert(list@.take(m as int) == list@.take(m - 1).push(j));
                        assert(list@.take(m as int)[m - 1] == j);
                        if x != j {
                            assert(list@.take(m as int).contains(x) == list@.take(m - 1).contains(x));
                        }
                    }
                }
            }
            proof {
                assert(list@.take(list@.len() as int) == list@);
                assert forall|x: int| 0 <= x < n implies rejected@[x] == rej0[x] by {
                    assert(rejected@[(x as usize) as int] == rejected@[x]);
                    assert(!ei[i as int]@.contains(i) || true);
                }
                assert(rejected@ =~= rej0);
            }
        } else {
            proof {
                if best@ != best0 {
                    lemma_lex_keeps(best@, seq0, i, candidates@, ei, max_nodes);
                }
                assert forall|q: Seq<usize>| #[trigger] path_ok(q, candidates@, ei, max_nodes) && extends(q, seq0) && q.len()
                    > seq0.len() && q[seq0.len() as int] < i + 1 implies capped(q.len(), target) <= best@.len() by {
                    if q[seq0.len() as int] == i {
                        let l = seq0.len() as int;
                        if rej0[i as int] != 0 {
                            if forall|p: int| 0 <= p < seq0.len() ==> #[trigger] seq0[p] != i && !ei[seq0[p] as int]@.contains(i) {
                                lemma_refs_clear(seq0, ei, i);
                            } else {
                                let p = choose|p: int| 0 <= p < seq0.len() && !(#[trigger] seq0[p] != i && !ei[seq0[p] as int]@.contains(i));
                                assert(q[p] == seq0[p]);
                                assert(q[p] != q[l] && !ei[q[p] as int]@.contains(q[l]));
                            }
                        } else {
                            assert(candidates@[q[l] as int].1@.len() <= l + 1);
                        }
                    }
                }
            }
        }
        i += 1;
    }
    proof {
        assert forall|q: Seq<usize>| #[trigger] path_ok(q, candidates@, ei, max_nodes) && extends(q, seq0) && q.len()
            > seq0.len() implies capped(q.len(), target) <= best@.len() by {
            assert(q[seq0.len() as int] < n);
        }
    }
    // Dead end: no valid extension exists from this node. Record if new best.
    if !extended && sequence.len() > best.len() {
        *best = copy_path(sequence);
        proof {
            lemma_lex_self(best@, seq0, candidates@, ei, max_nodes);
        }
        let entries = entries_of(candidates, fingerprints, best.as_slice());
        let sl = entries.as_slice();
        on_new_best(sl);
    }
    proof {
        if best@ != best0 && extended {
            assert forall|q: Seq<usize>| #[trigger] path_ok(q, candidates@, ei, max_nodes) && extends(q, seq0) && q.len()
                == best@.len() implies lex_le(best@, q) by {
                assert(q[seq0.len() as int] < n);
            }
        }
    }
}

/// `cands` holds trees of `1..=max_nodes` nodes labelled in `1..=k`, among them
/// a tree of the canonical form of every such tree.
pub open spec fn form_family(cands: Seq<TreeView>, max_nodes: usize, k: u32) -> bool {
    &&& forall|i: int| 0 <= i < cands.len() ==> (#[trigger] cands[i]).wf() && labels_within(cands[i], k) && 1
        <= cands[i].len() <= max_nodes
    &&& forall|t: TreeView| #![trigger labels_within(t, k)] t.wf() && labels_within(t, k) && 1 <= t.len() <= max_nodes
        ==> exists|i: int| 0 <= i < cands.len() && tree_canon(cands[i]) == tree_canon(t)
}

/// `q` picks trees of `cands` that make a valid TREE sequence: no tree picked
/// twice, at most `p + 1` (and at most `max_nodes`) nodes at position `p`, and no
/// tree embedding into a later one.
pub open spec fn valid_picks(q: Seq<int>, cands: Seq<TreeView>, max_nodes: usize) -> bool {
    &&& forall|p: int| 0 <= p < q.len() ==> 0 <= #[trigger] q[p] < cands.len() && cands[q[p]].len() <= p + 1
        && cands[q[p]].len() <= max_nodes
    &&& forall|p: int, r: int| #![trigger q[p], q[r]] 0 <= p < r < q.len() ==> q[p] != q[r] && !embeds_spec(
        cands[q[p]],
        cands[q[r]],
    )
}

/// `t` is one of the trees of `cands`.
pub open spec fn in_family(cands: Seq<TreeView>, t: TreeView) -> bool {
    exists|i: int| 0 <= i < cands.len() && cands[i] == t
}

/// The entries are trees of `cands`, and no valid sequence picked from `cands`
/// is longer (counting at most `target` trees when a positive target is set).
pub open spec fn longest_among(r: Seq<SequenceEntry>, cands: Seq<TreeView>, max_nodes: usize, target: usize) -> bool {
    &&& forall|p: int| 0 <= p < r.len() ==> in_family(cands, (#[trigger] r[p]).tree@)
    &&& forall|q: Seq<int>| #[trigger] valid_picks(q, cands, max_nodes) ==> capped(q.len(), target) <= r.len()
}

/// `ts` is a valid TREE sequence of trees with labels in `1..=k`: the tree at
/// position `p` has at most `p + 1` (and at most `max_nodes`) nodes, and no tree
/// embeds into a later one.
pub open spec fn valid_tree_seq(ts: Seq<TreeView>, max_nodes: usize, k: u32) -> bool {
    &&& forall|p: int| 0 <= p < ts.len() ==> (#[trigger] ts[p]).wf() && labels_within(ts[p], k) && ts[p].len() <= p + 1
        && ts[p].len() <= max_nodes
    &&& forall|p: int, r: int| #![trigger ts[p], ts[r]] 0 <= p < r < ts.len() ==> !embeds_spec(ts[p], ts[r])
}

/// A longest sequence among a family that has every canonical form is longest
/// among all valid sequences: each tree can be traded for the family's tree of
/// the same form, which embeds exactly where it does.
pub proof fn lemma_family_longest(r: Seq<SequenceEntry>, cands: Seq<TreeView>, max_nodes: usize, k: u32, target: usize)
    requires
        form_family(cands, max_nodes, k),
        longest_among(r, cands, max_nodes, target),
    ensures
        forall|ts: Seq<TreeView>| #[trigger] valid_tree_seq(ts, max_nodes, k) ==> capped(ts.len(), target) <= r.len(),
{
    assert forall|ts: Seq<TreeView>| #[trigger] valid_tree_seq(ts, max_nodes, k) implies capped(ts.len(), target) <= r.len() by {
        let q = lemma_picks_of(ts, cands, max_nodes, k);
    }
}

/// The family's trees of the forms of a valid sequence, position by position,
/// are valid picks, of the same sizes.
proof fn lemma_picks_of(ts: Seq<TreeView>, cands: Seq<TreeView>, max_nodes: usize, k: u32) -> (q: Seq<int>)
    requires
        form_family(cands, max_nodes, k),
        valid_tree_seq(ts, max_nodes, k),
    ensures
        valid_picks(q, cands, max_nodes),
        q.len() == ts.len(),
        forall|p: int| 0 <= p < q.len() ==> tree_canon(cands[#[trigger] q[p]]) == tree_canon(ts[p]) && cands[q[p]].len()
            == ts[p].len(),
{
    let q = Seq::new(ts.len(), |p: int| choose|i: int| 0 <= i < cands.len() && tree_canon(cands[i]) == tree_canon(ts[p]));
    assert forall|p: int| 0 <= p < q.len() implies 0 <= #[trigger] q[p] < cands.len() && tree_canon(cands[q[p]])
        == tree_canon(ts[p]) && cands[q[p]].len() == ts[p].len() by {
        assert(ts[p].wf() && labels_within(ts[p], k) && 1 <= ts[p].len() <= max_nodes);
        assert(exists|i: int| 0 <= i < cands.len() && tree_canon(cands[i]) == tree_canon(ts[p]));
        assert(cands[q[p]].wf());
        crate::form_unique::lemma_same_form_size(cands[q[p]], ts[p]);
    }
    assert forall|p: int, u: int| #![trigger q[p], q[u]] 0 <= p < u < q.len() implies q[p] != q[u] && !embeds_spec(
        cands[q[p]],
        cands[q[u]],
    ) by {
        assert(q[p] == q[p] && q[u] == q[u]);
        assert(!embeds_spec(ts[p], ts[u]));
        let cp = cands[q[p]];
        let cu = cands[q[u]];
        assert(cp.wf() && cu.wf());
        crate::form_unique::lemma_same_form_embeds(cp, ts[p]);
        crate::form_unique::lemma_same_form_embeds(cu, ts[u]);
        if q[p] == q[u] {
            crate::embed_spec::lemma_embeds_transitive(ts[p], cp, ts[u]);
        }
        if embeds_spec(cp, cu) {
            crate::embed_spec::lemma_embeds_transitive(ts[p], cp, cu);
            crate::embed_spec::lemma_embeds_transitive(ts[p], cu, ts[u]);
        }
    }
    assert(valid_picks(q, cands, max_nodes));
    q
}

/// `r` and `ts` have trees of the same keys at the first `n` positions.
pub open spec fn keys_agree(r: Seq<SequenceEntry>, ts: Seq<TreeView>, n: int) -> bool {
    forall|q: int| 0 <= q < n ==> tree_key((#[trigger] r[q]).tree@) == tree_key(ts[q])
}

/// `r` comes no later than `ts` when the trees are compared position by
/// position by their largest-first keys (more nodes first, then canonical form).
pub open spec fn keys_first(r: Seq<SequenceEntry>, ts: Seq<TreeView>) -> bool {
    ||| keys_agree(r, ts, r.len() as int)
    ||| exists|p: int| 0 <= p < r.len() && #[trigger] keys_agree(r, ts, p) && !key_le(
        CandidateOrder::LargestFirst,
        ts[p].len(),
        tree_canon(ts[p]),
        r[p].tree@.len(),
        tree_canon(r[p].tree@),
    )
}

/// The search's best path, first among the longest in index order over a
/// strictly sorted candidate list, is first among all valid sequences of its
/// length in key order.
proof fn lemma_first_longest(
    r: Seq<SequenceEntry>,
    all: Seq<(String, Tree)>,
    ei: Seq<Vec<usize>>,
    best: Seq<usize>,
    max_nodes: usize,
    k: u32,
)
    requires
        form_family(all.map_values(|e: (String, Tree)| e.1@), max_nodes, k),
        forall|q: int| 0 <= q < all.len() ==> candidate_upto(#[trigger] all[q], k, max_nodes as nat),
        sorted_by(all, cand_order(CandidateOrder::LargestFirst)),
        distinct_forms(all),
        all.len() <= usize::MAX,
        ei.len() == all.len(),
        forall|a: int, m: int| 0 <= a < all.len() && 0 <= m < ei[a]@.len() ==> #[trigger] ei[a]@[m] < all.len()
            && embeds_spec(all[a].1@, all[ei[a]@[m] as int].1@),
        best != Seq::<usize>::empty() ==> forall|q: Seq<usize>| #[trigger] path_ok(q, all, ei, max_nodes) && extends(
            q,
            Seq::<usize>::empty(),
        ) && q.len() == best.len() ==> lex_le(best, q),
        r.len() == best.len(),
        forall|p: int| 0 <= p < r.len() ==> #[trigger] best[p] < all.len() && r[p].tree@ == all[best[p] as int].1@,
    ensures
        forall|ts: Seq<TreeView>| #[trigger] valid_tree_seq(ts, max_nodes, k) && ts.len() == r.len() ==> keys_first(r, ts),
{
    assert forall|ts: Seq<TreeView>| #[trigger] valid_tree_seq(ts, max_nodes, k) && ts.len() == r.len() implies keys_first(
        r,
        ts,
    ) by {
        lemma_first_longest_one(r, all, ei, best, max_nodes, k, ts);
    }
}

proof fn lemma_first_longest_one(
    r: Seq<SequenceEntry>,
    all: Seq<(String, Tree)>,
    ei: Seq<Vec<usize>>,
    best: Seq<usize>,
    max_nodes: usize,
    k: u32,
    ts: Seq<TreeView>,
)
    requires
        form_family(all.map_values(|e: (String, Tree)| e.1@), max_nodes, k),
        forall|q: int| 0 <= q < all.len() ==> candidate_upto(#[trigger] all[q], k, max_nodes as nat),
        sorted_by(all, cand_order(CandidateOrder::LargestFirst)),
        distinct_forms(all),
        all.len() <= usize::MAX,
        ei.len() == all.len(),
        forall|a: int, m: int| 0 <= a < all.len() && 0 <= m < ei[a]@.len() ==> #[trigger] ei[a]@[m] < all.len()
            && embeds_spec(all[a].1@, all[ei[a]@[m] as int].1@),
        best != Seq::<usize>::empty() ==> forall|q: Seq<usize>| #[trigger] path_ok(q, all, ei, max_nodes) && extends(
            q,
            Seq::<usize>::empty(),
        ) && q.len() == best.len() ==> lex_le(best, q),
        r.len() == best.len(),
        forall|p: int| 0 <= p < r.len() ==> #[trigger] best[p] < all.len() && r[p].tree@ == all[best[p] as int].1@,
        valid_tree_seq(ts, max_nodes, k),
        ts.len() == r.len(),
    ensures
        keys_first(r, ts),
{
    if r.len() == 0 {
        assert(keys_agree(r, ts, 0));
    } else {
        let qs = lemma_path_of_seq(ts, all, ei, max_nodes, k);
        assert(best.len() > 0);
        assert(lex_le(best, qs));
        lemma_lex_keys(r, all, best, qs, ts, k, max_nodes);
    }
}

/// The candidates of the forms of a valid sequence make a path of the search.
proof fn lemma_path_of_seq(ts: Seq<TreeView>, all: Seq<(String, Tree)>, ei: Seq<Vec<usize>>, max_nodes: usize, k: u32) -> (qs: Seq<usize>)
    requires
        form_family(all.map_values(|e: (String, Tree)| e.1@), max_nodes, k),
        all.len() <= usize::MAX,
        ei.len() == all.len(),
        forall|a: int, m: int| 0 <= a < all.len() && 0 <= m < ei[a]@.len() ==> #[trigger] ei[a]@[m] < all.len()
            && embeds_spec(all[a].1@, all[ei[a]@[m] as int].1@),
        valid_tree_seq(ts, max_nodes, k),
    ensures
        path_ok(qs, all, ei, max_nodes),
        extends(qs, Seq::<usize>::empty()),
        qs.len() == ts.len(),
        forall|p: int| 0 <= p < qs.len() ==> (#[trigger] qs[p]) < all.len() && tree_key(all[qs[p] as int].1@) == tree_key(ts[p]),
{
    let cands = all.map_values(|e: (String, Tree)| e.1@);
    let q = lemma_picks_of(ts, cands, max_nodes, k);
    lemma_picks_path(q, all, ei, max_nodes);
    let qs = q.map_values(|x: int| x as usize);
    assert forall|p: int| 0 <= p < qs.len() implies (#[trigger] qs[p]) < all.len() && tree_key(all[qs[p] as int].1@) == tree_key(ts[p]) by {
        assert(qs[p] as int == q[p]);
        assert(cands[q[p]] == all[q[p]].1@);
    }
    qs
}

/// A best path before `qs` in index order puts `r` before `ts` in key order.
proof fn lemma_lex_keys(
    r: Seq<SequenceEntry>,
    all: Seq<(String, Tree)>,
    best: Seq<usize>,
    qs: Seq<usize>,
    ts: Seq<TreeView>,
    k: u32,
    max_nodes: usize,
)
    requires
        forall|q: int| 0 <= q < all.len() ==> candidate_upto(#[trigger] all[q], k, max_nodes as nat),
        sorted_by(all, cand_order(CandidateOrder::LargestFirst)),
        distinct_forms(all),
        lex_le(best, qs),
        r.len() == best.len(),
        qs.len() == ts.len(),
        ts.len() == r.len(),
        forall|p: int| 0 <= p < r.len() ==> #[trigger] best[p] < all.len() && r[p].tree@ == all[best[p] as int].1@,
        forall|p: int| 0 <= p < qs.len() ==> (#[trigger] qs[p]) < all.len() && tree_key(all[qs[p] as int].1@) == tree_key(ts[p]),
    ensures
        keys_first(r, ts),
{
    assert forall|p: int| 0 <= p < r.len() && best[p] == qs[p] implies tree_key((#[trigger] r[p]).tree@) == tree_key(ts[p]) by {
        assert(qs[p] < all.len());
    }
    if best == qs {
        assert(keys_agree(r, ts, r.len() as int));
    } else {
        let p = choose|p: int| #[trigger] lex_split(best, qs, p);
        assert forall|x: int| 0 <= x < p implies tree_key((#[trigger] r[x]).tree@) == tree_key(ts[x]) by {
            assert(best.take(p)[x] == qs.take(p)[x]);
        }
        assert(keys_agree(r, ts, p));
        assert(qs[p] < all.len());
        assert(best[p] < all.len());
        lemma_sorted_strict(all, best[p] as int, qs[p] as int, k, max_nodes);
    }
}

/// In a strictly sorted largest-first list, an earlier candidate's key comes
/// strictly before a later one's.
proof fn lemma_sorted_strict(all: Seq<(String, Tree)>, a: int, b: int, k: u32, max_nodes: usize)
    requires
        forall|q: int| 0 <= q < all.len() ==> candidate_upto(#[trigger] all[q], k, max_nodes as nat),
        sorted_by(all, cand_order(CandidateOrder::LargestFirst)),
        distinct_forms(all),
        0 <= a < b < all.len(),
    ensures
        !key_le(CandidateOrder::LargestFirst, all[b].1@.len(), tree_canon(all[b].1@), all[a].1@.len(), tree_canon(all[a].1@)),
{
    assert(candidate_upto(all[a], k, max_nodes as nat));
    assert(candidate_upto(all[b], k, max_nodes as nat));
    assert((cand_order(CandidateOrder::LargestFirst))(all[a], all[b]));
    assert(all[a].0@ != all[b].0@);
    if key_le(CandidateOrder::LargestFirst, all[b].1@.len(), tree_canon(all[b].1@), all[a].1@.len(), tree_canon(all[a].1@)) {
        lemma_key_le_antisym(
            CandidateOrder::LargestFirst,
            (all[b].1@.len(), tree_canon(all[b].1@)),
            (all[a].1@.len(), tree_canon(all[a].1@)),
        );
    }
}

/// Valid picks from the candidates' trees are paths of the search.
proof fn lemma_picks_path(q: Seq<int>, all: Seq<(String, Tree)>, ei: Seq<Vec<usize>>, max_nodes: usize)
    requires
        valid_picks(q, all.map_values(|e: (String, Tree)| e.1@), max_nodes),
        all.len() <= usize::MAX,
        ei.len() == all.len(),
        forall|a: int, m: int| 0 <= a < all.len() && 0 <= m < ei[a]@.len() ==> #[trigger] ei[a]@[m] < all.len()
            && embeds_spec(all[a].1@, all[ei[a]@[m] as int].1@),
    ensures
        path_ok(q.map_values(|x: int| x as usize), all, ei, max_nodes),
{
    let cands = all.map_values(|e: (String, Tree)| e.1@);
    let qs = q.map_values(|x: int| x as usize);
    assert forall|p: int| 0 <= p < qs.len() implies (#[trigger] qs[p]) < all.len() && all[qs[p] as int].1@.len() <= p + 1
        && all[qs[p] as int].1@.len() <= max_nodes by {
        assert(0 <= q[p] < cands.len());
        assert(qs[p] as int == q[p]);
    }
    assert forall|p: int, w: int| #![trigger qs[p], qs[w]] 0 <= p < w < qs.len() implies qs[p] != qs[w]
        && !ei[qs[p] as int]@.contains(qs[w]) by {
        assert(0 <= q[p] < cands.len() && 0 <= q[w] < cands.len());
        assert(qs[p] as int == q[p] && qs[w] as int == q[w]);
        assert(q[p] != q[w] && !embeds_spec(cands[q[p]], cands[q[w]]));
        if ei[qs[p] as int]@.contains(qs[w]) {
            let m = choose|m: int| 0 <= m < ei[qs[p] as int]@.len() && ei[qs[p] as int]@[m] == qs[w];
            assert(embeds_spec(all[q[p]].1@, all[ei[q[p]]@[m] as int].1@));
        }
    }
}

/// The candidates' trees hold a tree of every canonical form.
proof fn lemma_candidate_family(all: Seq<(String, Tree)>, max_nodes: usize, k: u32)
    requires
        forall|q: int| 0 <= q < all.len() ==> candidate_upto(#[trigger] all[q], k, max_nodes as nat),
        forall|t: TreeView| #![trigger labels_within(t, k)] t.wf() && labels_within(t, k) && 1 <= t.len() <= max_nodes
            ==> exists|i: int| 0 <= i < all.len() && all[i].0@ == tree_canon(t),
    ensures
        form_family(all.map_values(|e: (String, Tree)| e.1@), max_nodes, k),
{
    let cands = all.map_values(|e: (String, Tree)| e.1@);
    assert forall|q: int| 0 <= q < cands.len() implies (#[trigger] cands[q]).wf() && labels_within(cands[q], k)
        && 1 <= cands[q].len() <= max_nodes by {
        assert(candidate_upto(all[q], k, max_nodes as nat));
    }
    assert forall|t: TreeView| #![trigger labels_within(t, k)] t.wf() && labels_within(t, k) && 1 <= t.len() <= max_nodes
        implies exists|i: int| 0 <= i < cands.len() && tree_canon(cands[i]) == tree_canon(t) by {
        let q = choose|q: int| 0 <= q < all.len() && all[q].0@ == tree_canon(t);
        assert(candidate_upto(all[q], k, max_nodes as nat));
        assert(tree_canon(cands[q]) == tree_canon(t));
    }
}

/// The search result is a longest valid sequence among the candidates, which
/// hold a tree of every canonical form.
proof fn lemma_longest(
    r: Seq<SequenceEntry>,
    all: Seq<(String, Tree)>,
    ei: Seq<Vec<usize>>,
    best: Seq<usize>,
    max_nodes: usize,
    k: u32,
    count: usize,
)
    requires
        form_family(all.map_values(|e: (String, Tree)| e.1@), max_nodes, k),
        all.len() <= usize::MAX,
        ei.len() == all.len(),
        forall|a: int, m: int| 0 <= a < all.len() && 0 <= m < ei[a]@.len() ==> #[trigger] ei[a]@[m] < all.len()
            && embeds_spec(all[a].1@, all[ei[a]@[m] as int].1@),
        forall|q: Seq<usize>| #[trigger] path_ok(q, all, ei, max_nodes) && extends(q, Seq::<usize>::empty())
            ==> capped(q.len(), count) <= best.len(),
        r.len() == best.len(),
        forall|p: int| 0 <= p < r.len() ==> #[trigger] best[p] < all.len() && r[p].tree@ == all[best[p] as int].1@,
    ensures
        exists|cands: Seq<TreeView>| #[trigger] form_family(cands, max_nodes, k) && longest_among(r, cands, max_nodes, count),
{
    let cands = all.map_values(|e: (String, Tree)| e.1@);
    assert forall|p: int| 0 <= p < r.len() implies in_family(cands, (#[trigger] r[p]).tree@) by {
        let b = best[p] as int;
        assert(0 <= b < all.len());
        assert(cands[b] == all[b].1@);
        assert(cands[b] == r[p].tree@);
    }
    assert forall|q: Seq<int>| #[trigger] valid_picks(q, cands, max_nodes) implies capped(q.len(), count) <= r.len() by {
        lemma_picks_path(q, all, ei, max_nodes);
        let qs = q.map_values(|x: int| x as usize);
        assert(path_ok(qs, all, ei, max_nodes));
        assert(extends(qs, Seq::<usize>::empty()));
        assert(qs.len() == q.len());
        assert(capped(qs.len(), count) <= best.len());
    }
    assert(longest_among(r, cands, max_nodes, count));
}

/// The entries of a search path are accepted entries, and below 256 nodes they
/// keep the TREE rule.
proof fn lemma_optimal_entries(
    r: Seq<SequenceEntry>,
    all: Seq<(String, Tree)>,
    fps: Seq<TreeFingerprint>,
    ei: Seq<Vec<usize>>,
    b: Seq<usize>,
    max_nodes: usize,
    k: u32,
)
    requires
        fps.len() == all.len(),
        forall|q: int| 0 <= q < all.len() ==> candidate_upto(#[trigger] all[q], k, max_nodes as nat),
        forall|q: int| 0 <= q < all.len() ==> (#[trigger] fps[q]).describes(all[q].1@),
        forall|a: int, x: usize| 0 <= a < all.len() && x < all.len() && x != a && TreeFingerprint::compatible_spec(
            fps[a],
            fps[x as int],
        ) && embeds_spec(all[a].1@, all[x as int].1@) ==> #[trigger] ei[a]@.contains(x),
        path_ok(b, all, ei, max_nodes),
        r.len() == b.len(),
        forall|p: int| 0 <= p < r.len() ==> (#[trigger] r[p]).index == p + 1 && r[p].tree@ == all[b[p] as int].1@
            && r[p].canonical == all[b[p] as int].0 && r[p].fingerprint == fps[b[p] as int],
    ensures
        sequence_ok(r, max_nodes, k),
        max_nodes < 256 ==> no_earlier_embeds(r),
{
    assert forall|p: int| 0 <= p < r.len() implies (#[trigger] r[p]).index == p + 1 && entry_ok(r[p], max_nodes, k) by {
        assert(b[p] < all.len());
        assert(candidate_upto(all[b[p] as int], k, max_nodes as nat));
        assert(fps[b[p] as int].describes(all[b[p] as int].1@));
    }
    if max_nodes < 256 {
        assert forall|p: int, q: int| #![trigger r[p], r[q]] 0 <= p < q < r.len() implies !embeds_spec(
            r[p].tree@,
            r[q].tree@,
        ) by {
            assert(b[p] != b[q] && !ei[b[p] as int]@.contains(b[q]));
            let cp = all[b[p] as int];
            let cq = all[b[q] as int];
            assert(candidate_upto(cp, k, max_nodes as nat));
            assert(candidate_upto(cq, k, max_nodes as nat));
            if embeds_spec(cp.1@, cq.1@) {
                crate::fingerprint::lemma_compatible_sound(cp.1@, cq.1@, fps[b[p] as int], fps[b[q] as int]);
            }
        }
    }
}

/// Exhaustive backtracking search for the LONGEST valid TREE(k) sequence.
///
/// Unlike the greedy strategies, this tries every valid candidate at each
/// position and backtracks to explore all possibilities. This is exponential
/// time — practical only for small `max_nodes` (≤ 6 recommended for k=3).
///
/// Precomputes `embeds_into[i]` (all j where tree_i embeds into tree_j)
/// before the DFS, so that each DFS step sweeps in O(|embeds_into[i]|) instead of O(N).
///
/// `count` is the target sequence length (0 = search for absolute maximum).
/// `on_new_best` is called with the full sequence each time a longer one is found.
pub fn generate_sequence_optimal<F>(count: usize, max_nodes: usize, k: u32, mut on_new_best: F) -> (r: Vec<SequenceEntry>)
    where F: FnMut(&[SequenceEntry])
    requires
        k < 32,
        max_nodes <= i32::MAX,
        forall|e: &[SequenceEntry]| call_requires(on_new_best, (e,)),
    ensures
        sequence_ok(r@, max_nodes, k),
        max_nodes < 256 ==> no_earlier_embeds(r@),
        exists|cands: Seq<TreeView>| #[trigger] form_family(cands, max_nodes, k) && longest_among(r@, cands, max_nodes, count),
        forall|ts: Seq<TreeView>| #[trigger] valid_tree_seq(ts, max_nodes, k) ==> capped(ts.len(), count) <= r@.len(),
        count > 0 ==> r@.len() <= count,
        forall|ts: Seq<TreeView>| #[trigger] valid_tree_seq(ts, max_nodes, k) && ts.len() == r@.len() ==> keys_first(r@, ts),
        r@.len() > 0 ==> exists|e: &[SequenceEntry]| #[trigger] call_ensures(on_new_best, (e,), ()) && same_entries(e@, r@),
{
    let ghost f0 = on_new_best;
    let mut cache = TreeCache::new();
    let mut sz: usize = 0;
    while sz < max_nodes
        invariant
            sz <= max_nodes,
            cache.inv(),
        decreases max_nodes - sz,
    {
        sz += 1;
        let _ = all_trees_of_size_cached(sz, k, &mut cache);
    }

    // Largest-first ordering: DFS finds strong solutions early → tighter pruning.
    let all_candidates = all_trees_up_to_size_largest_first(max_nodes, k, &mut cache);
    let n = all_candidates.len();

    let fingerprints = par_fingerprints(&all_candidates);

    // embeds_into[i] = list of j (j≠i) where tree_i homeomorphically embeds into tree_j.
    // If tree_i is placed in the sequence, every tree_j in this list is permanently
    // forbidden from appearing later.
    let embeds_into = par_exclusion_rows(&all_candidates, &fingerprints, k, max_nodes);
    proof {
        assert forall|a: int| 0 <= a < n implies (#[trigger] embeds_into@[a])@.no_duplicates() && !embeds_into@[a]@.contains(a as usize) by {
            assert(row_ok(embeds_into@[a]@, a, all_candidates@, fingerprints@));
        }
        assert forall|a: int, m: int| 0 <= a < n && 0 <= m < embeds_into@[a]@.len() implies #[trigger] embeds_into@[a]@[m] < n
            && embeds_spec(all_candidates@[a].1@, all_candidates@[embeds_into@[a]@[m] as int].1@) by {
            assert(row_ok(embeds_into@[a]@, a, all_candidates@, fingerprints@));
        }
        assert forall|a: int, x: usize| 0 <= a < n && x < n && x != a && TreeFingerprint::compatible_spec(
            fingerprints@[a],
            fingerprints@[x as int],
        ) && embeds_spec(all_candidates@[a].1@, all_candidates@[x as int].1@) implies #[trigger] embeds_into@[a]@.contains(x) by {
            assert(row_ok(embeds_into@[a]@, a, all_candidates@, fingerprints@));
        }
    }

    let mut rejected: Vec<usize> = Vec::with_capacity(n);
    let mut z: usize = 0;
    while z < n
        invariant
            z <= n,
            rejected@.len() == z,
            forall|q: int| 0 <= q < z ==> #[trigger] rejected@[q] == 0,
        decreases n - z,
    {
        rejected.push(0);
        z += 1;
    }
    let mut sequence_indices: Vec<usize> = Vec::new();
    let mut best_indices: Vec<usize> = Vec::new();
    proof {
        assert forall|x: usize| x < n implies #[trigger] rejected@[x as int] == refs(sequence_indices@, embeds_into@, x) by {}
    }
    dfs_optimal(
        all_candidates.as_slice(),
        fingerprints.as_slice(),
        embeds_into.as_slice(),
        &mut rejected,
        &mut sequence_indices,
        &mut best_indices,
        max_nodes,
        count,
        &mut on_new_best,
    );
    let r = entries_of(all_candidates.as_slice(), fingerprints.as_slice(), best_indices.as_slice());
    proof {
        lemma_candidate_family(all_candidates@, max_nodes, k);
        lemma_longest(r@, all_candidates@, embeds_into@, best_indices@, max_nodes, k, count);
        let cands = choose|cands: Seq<TreeView>| #[trigger] form_family(cands, max_nodes, k) && longest_among(r@, cands, max_nodes, count);
        lemma_family_longest(r@, cands, max_nodes, k, count);
        lemma_first_longest(r@, all_candidates@, embeds_into@, best_indices@, max_nodes, k);
        if r@.len() > 0 {
            assert(best_indices@ != Seq::<usize>::empty());
            let e = choose|e: &[SequenceEntry]| #[trigger] call_ensures(f0, (e,), ()) && entries_for(
                e@,
                all_candidates@,
                fingerprints@,
                best_indices@,
            );
            assert(same_entries(e@, r@));
        }
    }
    proof {
        lemma_optimal_entries(r@, all_candidates@, fingerprints@, embeds_into@, best_indices@, max_nodes, k);
    }
    r
}

} // verus!
