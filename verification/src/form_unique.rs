//! Canonical forms determine trees: two trees with the same canonical form embed
//! into each other. The proof reads a form back: its label is the leading
//! number, and its children's forms are the pieces of the bracketed list,
//! split at the commas outside inner brackets.

use vstd::prelude::*;
use crate::canonical::{canon, decimal, join, kid_canons, text_order, tree_canon};
use crate::embed_spec::{emb_at, embeds_spec, inj_into, lemma_emb_size};
use crate::subtree::{lemma_dfs_props, lemma_root_covers};
use crate::forms::{form_of, lemma_canon_unfold, lemma_kid_canons_index, lemma_sort_forms_by_multiset};
use crate::generator::lemma_decimal_injective;
use crate::order::lemma_text_order;
use crate::tree::TreeView;

verus! {

/// The bracket level change of one character.
pub open spec fn delta(c: char) -> int {
    if c == '(' {
        1
    } else if c == ')' {
        -1
    } else {
        0
    }
}

/// The bracket level after the first `i` characters of `s`.
pub open spec fn depth(s: Seq<char>, i: int) -> int
    decreases i,
{
    if i <= 0 {
        0
    } else {
        depth(s, i - 1) + delta(s[i - 1])
    }
}

/// The brackets of `s` are balanced.
pub open spec fn balanced(s: Seq<char>) -> bool {
    &&& depth(s, s.len() as int) == 0
    &&& forall|i: int| 0 <= i <= s.len() ==> #[trigger] depth(s, i) >= 0
}

/// `s` looks like a canonical form: nonempty, balanced, with every comma inside brackets.
pub open spec fn form_like(s: Seq<char>) -> bool {
    &&& s.len() >= 1
    &&& balanced(s)
    &&& forall|i: int| 0 <= i < s.len() && #[trigger] s[i] == ',' ==> depth(s, i) >= 1
}

/// A comma outside every bracket.
pub open spec fn top_comma(s: Seq<char>, i: int) -> bool {
    0 <= i < s.len() && s[i] == ',' && depth(s, i) == 0
}

proof fn lemma_depth_prefix(a: Seq<char>, b: Seq<char>, i: int)
    requires
        0 <= i <= a.len(),
    ensures
        depth(a + b, i) == depth(a, i),
    decreases i,
{
    if i > 0 {
        lemma_depth_prefix(a, b, i - 1);
        assert((a + b)[i - 1] == a[i - 1]);
    }
}

proof fn lemma_depth_concat(a: Seq<char>, b: Seq<char>, i: int)
    requires
        0 <= i <= b.len(),
    ensures
        depth(a + b, a.len() + i) == depth(a, a.len() as int) + depth(b, i),
    decreases i,
{
    if i == 0 {
        lemma_depth_prefix(a, b, a.len() as int);
    } else {
        lemma_depth_concat(a, b, i - 1);
        assert((a + b)[a.len() + i - 1] == b[i - 1]);
    }
}

proof fn lemma_depth_one(c: char)
    ensures
        depth(seq![c], 0) == 0,
        depth(seq![c], 1) == delta(c),
{
    assert(depth(seq![c], 0) == 0);
    assert(seq![c][0] == c);
}

/// A decimal digit character.
pub open spec fn is_digit(c: char) -> bool {
    '0' <= c && c <= '9'
}

proof fn lemma_decimal_digits(n: nat)
    ensures
        forall|i: int| 0 <= i < decimal(n).len() ==> is_digit(#[trigger] decimal(n)[i]),
        decimal(n).len() >= 1,
    decreases n,
{
    if n >= 10 {
        lemma_decimal_digits(n / 10);
        assert forall|i: int| 0 <= i < decimal(n).len() implies is_digit(#[trigger] decimal(n)[i]) by {
            if i < decimal(n / 10).len() {
                assert(decimal(n)[i] == decimal(n / 10)[i]);
            }
        }
    }
}

proof fn lemma_depth_flat(s: Seq<char>, i: int)
    requires
        0 <= i <= s.len(),
        forall|j: int| 0 <= j < s.len() ==> is_digit(#[trigger] s[j]),
    ensures
        depth(s, i) == 0,
    decreases i,
{
    if i > 0 {
        lemma_depth_flat(s, i - 1);
        assert(is_digit(s[i - 1]));
    }
}

/// The join of two or more texts is the first one, a comma and the join of the rest.
proof fn lemma_join_front(ss: Seq<Seq<char>>)
    requires
        ss.len() >= 2,
    ensures
        join(ss) == ss[0] + seq![','] + join(ss.drop_first()),
    decreases ss.len(),
{
    if ss.len() == 2 {
        assert(ss.drop_last() =~= seq![ss[0]]);
        assert(ss.drop_first() =~= seq![ss[1]]);
        assert(join(ss.drop_last()) == ss[0]);
        assert(join(ss.drop_first()) == ss[1]);
    } else {
        lemma_join_front(ss.drop_last());
        assert(ss.drop_last().drop_first() =~= ss.drop_first().drop_last());
        assert(ss.drop_first().last() == ss.last());
        assert(ss.drop_last()[0] == ss[0]);
        assert(join(ss.drop_first()) == join(ss.drop_first().drop_last()) + seq![','] + ss.drop_first().last());
        assert(join(ss) =~= ss[0] + seq![','] + join(ss.drop_first()));
    }
}

/// Joining forms gives a balanced text, nonempty unless there is nothing to join.
proof fn lemma_join_balanced(ss: Seq<Seq<char>>)
    requires
        forall|j: int| 0 <= j < ss.len() ==> form_like(#[trigger] ss[j]),
    ensures
        balanced(join(ss)),
        ss.len() >= 1 ==> join(ss).len() >= 1,
    decreases ss.len(),
{
    if ss.len() == 1 {
        assert(form_like(ss[0]));
    } else if ss.len() >= 2 {
        let front = ss.drop_last();
        assert forall|j: int| 0 <= j < front.len() implies form_like(#[trigger] front[j]) by {
            assert(front[j] == ss[j]);
        }
        lemma_join_balanced(front);
        let a = join(front) + seq![','];
        let b = ss.last();
        assert(form_like(ss[ss.len() - 1]));
        assert(join(ss) == a + b);
        lemma_depth_one(',');
        lemma_depth_concat(join(front), seq![','], 1);
        assert(depth(a, a.len() as int) == 0);
        assert forall|i: int| 0 <= i <= join(ss).len() implies #[trigger] depth(join(ss), i) >= 0 by {
            if i <= a.len() {
                lemma_depth_prefix(a, b, i);
                if i <= join(front).len() {
                    lemma_depth_prefix(join(front), seq![','], i);
                }
            } else {
                lemma_depth_concat(a, b, i - a.len());
                assert(depth(b, i - a.len()) >= 0);
            }
        }
        lemma_depth_concat(a, b, b.len() as int);
    }
}

/// Every canonical form looks like a form.
pub proof fn lemma_canon_form_like(t: TreeView, i: int)
    requires
        t.wf(),
        0 <= i < t.len(),
    ensures
        form_like(canon(t, i)),
    decreases t.len() - i,
{
    let m = t.kids(i).len() as int;
    let kc = kid_canons(t, i, m);
    lemma_canon_unfold(t, i);
    let d = decimal(t.label(i) as nat);
    lemma_decimal_digits(t.label(i) as nat);
    if m == 0 {
        assert forall|q: int| 0 <= q <= d.len() implies #[trigger] depth(d, q) >= 0 by {
            lemma_depth_flat(d, q);
        }
        lemma_depth_flat(d, d.len() as int);
        assert forall|q: int| 0 <= q < d.len() && #[trigger] d[q] == ',' implies depth(d, q) >= 1 by {
            assert(is_digit(d[q]));
        }
    } else {
        assert forall|j: int| 0 <= j < kc.len() implies form_like(#[trigger] kc[j]) by {
            lemma_kid_canons_index(t, i, m, j);
            let c = t.kids(i)[j];
            assert(i < c < t.len());
            lemma_canon_form_like(t, c as int);
        }
        lemma_text_order();
        kc.lemma_sort_by_ensures(text_order());
        let sk = kc.sort_by(text_order());
        assert forall|j: int| 0 <= j < sk.len() implies form_like(#[trigger] sk[j]) by {
            vstd::seq_lib::to_multiset_contains(sk, sk[j]);
            vstd::seq_lib::to_multiset_contains(kc, sk[j]);
            assert(sk.contains(sk[j]));
            let q = choose|q: int| 0 <= q < kc.len() && kc[q] == sk[j];
        }
        vstd::seq_lib::to_multiset_len(kc);
        vstd::seq_lib::to_multiset_len(sk);
        lemma_join_balanced(sk);
        let jn = join(sk);
        let p = d + seq!['('];
        let pj = p + jn;
        let s = pj + seq![')'];
        assert(canon(t, i) == s);
        lemma_depth_flat(d, d.len() as int);
        lemma_depth_one('(');
        lemma_depth_one(')');
        lemma_depth_concat(d, seq!['('], 1);
        assert(depth(p, p.len() as int) == 1);
        assert forall|q: int| 0 <= q <= s.len() implies #[trigger] depth(s, q) >= 0 && (q < s.len() && s[q] == ',' ==> depth(s, q) >= 1) by {
            if q <= pj.len() {
                lemma_depth_prefix(pj, seq![')'], q);
                if q <= p.len() {
                    lemma_depth_prefix(p, jn, q);
                    if q <= d.len() {
                        lemma_depth_prefix(d, seq!['('], q);
                        lemma_depth_flat(d, q);
                        if q < d.len() {
                            assert(s[q] == d[q]);
                            assert(is_digit(d[q]));
                        }
                    } else {
                        assert(s[q] == pj[q]);
                    }
                } else {
                    lemma_depth_concat(p, jn, q - p.len());
                    if q < pj.len() {
                        assert(s[q] == jn[q - p.len()]);
                    }
                }
            } else {
                lemma_depth_concat(pj, seq![')'], q - pj.len());
                lemma_depth_concat(p, jn, jn.len() as int);
            }
        }
        assert forall|q: int| 0 <= q < s.len() && #[trigger] s[q] == ',' implies depth(s, q) >= 1 by {
            assert(depth(s, q) >= 0 && (q < s.len() && s[q] == ',' ==> depth(s, q) >= 1));
        }
        lemma_depth_concat(pj, seq![')'], 1);
        lemma_depth_concat(p, jn, jn.len() as int);
    }
}

/// In a join of forms, the first comma outside brackets ends the first form;
/// a single form has no such comma.
proof fn lemma_first_top_comma(ss: Seq<Seq<char>>)
    requires
        forall|j: int| 0 <= j < ss.len() ==> form_like(#[trigger] ss[j]),
        ss.len() >= 1,
    ensures
        ss.len() >= 2 ==> top_comma(join(ss), ss[0].len() as int),
        forall|i: int| 0 <= i < ss[0].len() ==> !#[trigger] top_comma(join(ss), i),
        ss.len() == 1 ==> forall|i: int| !#[trigger] top_comma(join(ss), i),
        ss.len() >= 2 ==> join(ss).len() > ss[0].len(),
{
    let f = ss[0];
    assert(form_like(f));
    if ss.len() == 1 {
        assert(join(ss) == f);
        assert forall|i: int| !#[trigger] top_comma(join(ss), i) by {
            if 0 <= i < f.len() && f[i] == ',' {
                assert(depth(f, i) >= 1);
            }
        }
    } else {
        lemma_join_front(ss);
        let a = f + seq![','];
        let rest = join(ss.drop_first());
        let j = join(ss);
        assert(j == a + rest);
        assert forall|i: int| 0 <= i < f.len() implies !#[trigger] top_comma(j, i) by {
            lemma_depth_prefix(a, rest, i);
            lemma_depth_prefix(f, seq![','], i);
            assert(j[i] == f[i]);
            if f[i] == ',' {
                assert(depth(f, i) >= 1);
            }
        }
        lemma_depth_prefix(a, rest, f.len() as int);
        lemma_depth_prefix(f, seq![','], f.len() as int);
        assert(j[f.len() as int] == ',');
    }
}

/// Joins of forms determine the joined forms.
pub proof fn lemma_join_injective(s1: Seq<Seq<char>>, s2: Seq<Seq<char>>)
    requires
        forall|j: int| 0 <= j < s1.len() ==> form_like(#[trigger] s1[j]),
        forall|j: int| 0 <= j < s2.len() ==> form_like(#[trigger] s2[j]),
        join(s1) == join(s2),
    ensures
        s1 == s2,
    decreases s1.len(),
{
    lemma_join_balanced(s1);
    lemma_join_balanced(s2);
    if s1.len() == 0 || s2.len() == 0 {
        assert(s1 =~= s2);
    } else {
        lemma_first_top_comma(s1);
        lemma_first_top_comma(s2);
        let j = join(s1);
        if s1.len() == 1 && s2.len() == 1 {
            assert(s1 =~= s2);
        } else if s1.len() == 1 {
            assert(top_comma(j, s2[0].len() as int));
        } else if s2.len() == 1 {
            assert(top_comma(j, s1[0].len() as int));
        } else {
            let p1 = s1[0].len() as int;
            let p2 = s2[0].len() as int;
            if p1 < p2 {
                assert(top_comma(j, p1));
            }
            if p2 < p1 {
                assert(top_comma(j, p2));
            }
            lemma_join_front(s1);
            lemma_join_front(s2);
            assert(s1[0] =~= j.subrange(0, p1));
            assert(s2[0] =~= j.subrange(0, p2));
            assert(join(s1.drop_first()) =~= j.subrange(p1 + 1, j.len() as int));
            assert(join(s2.drop_first()) =~= j.subrange(p2 + 1, j.len() as int));
            let d1 = s1.drop_first();
            let d2 = s2.drop_first();
            assert forall|q: int| 0 <= q < d1.len() implies form_like(#[trigger] d1[q]) by {
                assert(d1[q] == s1[q + 1]);
            }
            assert forall|q: int| 0 <= q < d2.len() implies form_like(#[trigger] d2[q]) by {
                assert(d2[q] == s2[q + 1]);
            }
            lemma_join_injective(d1, d2);
            assert(s1 =~= s2) by {
                assert forall|q: int| 0 <= q < s1.len() implies s1[q] == s2[q] by {
                    if q > 0 {
                        assert(s1[q] == d1[q - 1]);
                        assert(s2[q] == d2[q - 1]);
                    }
                }
            }
        }
    }
}

/// A root label and its children's forms can be read back from the form they
/// make: the label exactly, the children's forms up to order.
pub proof fn lemma_form_of_injective(l1: u32, fs1: Seq<Seq<char>>, l2: u32, fs2: Seq<Seq<char>>)
    requires
        forall|j: int| 0 <= j < fs1.len() ==> form_like(#[trigger] fs1[j]),
        forall|j: int| 0 <= j < fs2.len() ==> form_like(#[trigger] fs2[j]),
        form_of(l1, fs1) == form_of(l2, fs2),
    ensures
        l1 == l2,
        fs1.to_multiset() == fs2.to_multiset(),
{
    let d1 = decimal(l1 as nat);
    let d2 = decimal(l2 as nat);
    lemma_decimal_digits(l1 as nat);
    lemma_decimal_digits(l2 as nat);
    lemma_text_order();
    fs1.lemma_sort_by_ensures(text_order());
    fs2.lemma_sort_by_ensures(text_order());
    let o1 = fs1.sort_by(text_order());
    let o2 = fs2.sort_by(text_order());
    vstd::seq_lib::to_multiset_len(fs1);
    vstd::seq_lib::to_multiset_len(fs2);
    vstd::seq_lib::to_multiset_len(o1);
    vstd::seq_lib::to_multiset_len(o2);
    let s = form_of(l1, fs1);
    if fs1.len() == 0 && fs2.len() == 0 {
        lemma_decimal_injective(l1 as nat, l2 as nat);
        assert(fs1 =~= fs2);
    } else if fs1.len() == 0 {
        let p2 = d2.len() as int;
        assert(s[p2] == '(');
        assert(is_digit(d1[p2]));
    } else if fs2.len() == 0 {
        let p1 = d1.len() as int;
        assert(s[p1] == '(');
        assert(is_digit(d2[p1]));
    } else {
        let p1 = d1.len() as int;
        let p2 = d2.len() as int;
        assert(s[p1] == '(');
        assert(form_of(l2, fs2)[p2] == '(');
        if p1 < p2 {
            assert(s[p1] == d2[p1]);
            assert(is_digit(d2[p1]));
        }
        if p2 < p1 {
            assert(s[p2] == d1[p2]);
            assert(is_digit(d1[p2]));
        }
        assert(d1 =~= s.subrange(0, p1));
        assert(d2 =~= form_of(l2, fs2).subrange(0, p2));
        lemma_decimal_injective(l1 as nat, l2 as nat);
        assert(join(o1) =~= s.subrange(p1 + 1, s.len() - 1));
        assert(join(o2) =~= form_of(l2, fs2).subrange(p2 + 1, s.len() - 1));
        assert forall|j: int| 0 <= j < o1.len() implies form_like(#[trigger] o1[j]) by {
            assert(o1.contains(o1[j]));
            let q = choose|q: int| 0 <= q < fs1.len() && fs1[q] == o1[j];
            assert(form_like(fs1[q]));
        }
        assert forall|j: int| 0 <= j < o2.len() implies form_like(#[trigger] o2[j]) by {
            assert(o2.contains(o2[j]));
            let q = choose|q: int| 0 <= q < fs2.len() && fs2[q] == o2[j];
            assert(form_like(fs2[q]));
        }
        lemma_join_injective(o1, o2);
    }
}

/// `f` pairs each entry of `a` with an equal entry of `b`, no entry of `b` twice.
pub open spec fn matching<A>(a: Seq<A>, b: Seq<A>, f: Seq<int>) -> bool {
    &&& inj_into(f, b.len() as int)
    &&& f.len() == a.len()
    &&& forall|i: int| 0 <= i < f.len() ==> a[i] == b[#[trigger] f[i]]
}

/// Sequences with the same entries, counted with multiplicity, can be matched
/// entry by entry.
pub proof fn lemma_multiset_matching<A>(a: Seq<A>, b: Seq<A>)
    requires
        a.to_multiset() == b.to_multiset(),
    ensures
        exists|f: Seq<int>| #[trigger] matching(a, b, f),
    decreases a.len(),
{
    if a.len() == 0 {
        let f = Seq::<int>::empty();
        assert(matching(a, b, f));
    } else {
        let x = a.last();
        let a1 = a.drop_last();
        assert(a1.push(x) =~= a);
        vstd::seq_lib::to_multiset_build(a1, x);
        assert(a.to_multiset().count(x) > 0);
        vstd::seq_lib::to_multiset_contains(b, x);
        let j = choose|j: int| 0 <= j < b.len() && b[j] == x;
        let b1 = b.remove(j);
        vstd::seq_lib::to_multiset_remove(b, j);
        assert(b1.to_multiset() =~= a1.to_multiset());
        lemma_multiset_matching(a1, b1);
        let g = choose|g: Seq<int>| #[trigger] matching(a1, b1, g);
        b.remove_ensures(j);
        let f = Seq::new(a1.len(), |i: int| if g[i] < j { g[i] } else { g[i] + 1 }).push(j);
        assert forall|i: int| 0 <= i < f.len() implies a[i] == b[#[trigger] f[i]] by {
            if i < a1.len() {
                assert(a1[i] == b1[g[i]]);
                assert(a[i] == a1[i]);
            }
        }
        assert forall|i: int, k: int| 0 <= i < f.len() && 0 <= k < f.len() && i != k implies f[i] != f[k] by {
            if i < a1.len() && k < a1.len() {
                assert(g[i] != g[k]);
            }
        }
        assert(matching(a, b, f));
    }
}

/// Nodes with the same canonical form map onto each other.
pub proof fn lemma_same_canon_emb(t1: TreeView, x: int, t2: TreeView, y: int)
    requires
        t1.wf(),
        t2.wf(),
        0 <= x < t1.len(),
        0 <= y < t2.len(),
        canon(t1, x) == canon(t2, y),
    ensures
        emb_at(t1, x, t2, y),
    decreases t1.len() - x,
{
    let m1 = t1.kids(x).len() as int;
    let m2 = t2.kids(y).len() as int;
    let kc1 = kid_canons(t1, x, m1);
    let kc2 = kid_canons(t2, y, m2);
    lemma_canon_unfold(t1, x);
    lemma_canon_unfold(t2, y);
    assert forall|j: int| 0 <= j < kc1.len() implies form_like(#[trigger] kc1[j]) by {
        lemma_kid_canons_index(t1, x, m1, j);
        lemma_canon_form_like(t1, t1.kids(x)[j] as int);
    }
    assert forall|j: int| 0 <= j < kc2.len() implies form_like(#[trigger] kc2[j]) by {
        lemma_kid_canons_index(t2, y, m2, j);
        lemma_canon_form_like(t2, t2.kids(y)[j] as int);
    }
    lemma_form_of_injective(t1.label(x), kc1, t2.label(y), kc2);
    lemma_multiset_matching(kc1, kc2);
    let f = choose|f: Seq<int>| #[trigger] matching(kc1, kc2, f);
    assert forall|i: int| 0 <= i < f.len() implies x < #[trigger] t1.kids(x)[i] < t1.len() && exists|z: usize|
        #[trigger] t2.dfs_order(t2.kids(y)[f[i]] as int).contains(z) && emb_at(t1, t1.kids(x)[i] as int, t2, z as int) by {
        let c = t1.kids(x)[i];
        let w = t2.kids(y)[f[i]];
        assert(x < c < t1.len());
        assert(y < w < t2.len());
        lemma_kid_canons_index(t1, x, m1, i);
        lemma_kid_canons_index(t2, y, m2, f[i]);
        assert(kc1[i] == kc2[f[i]]);
        lemma_same_canon_emb(t1, c as int, t2, w as int);
        lemma_dfs_props(t2, w as int);
        assert(t2.dfs_order(w as int)[0] == w);
        assert(t2.dfs_order(w as int).contains(w));
    }
    assert(inj_into(f, m2));
}

/// Two trees with the same canonical form embed into each other.
pub proof fn lemma_same_form_embeds(t1: TreeView, t2: TreeView)
    requires
        t1.wf(),
        t2.wf(),
        tree_canon(t1) == tree_canon(t2),
    ensures
        embeds_spec(t1, t2),
        embeds_spec(t2, t1),
{
    lemma_same_canon_emb(t1, 0, t2, 0);
    lemma_same_canon_emb(t2, 0, t1, 0);
}

/// Trees with the same canonical form have the same number of nodes.
pub proof fn lemma_same_form_size(t1: TreeView, t2: TreeView)
    requires
        t1.wf(),
        t2.wf(),
        tree_canon(t1) == tree_canon(t2),
    ensures
        t1.len() == t2.len(),
{
    lemma_same_canon_emb(t1, 0, t2, 0);
    lemma_same_canon_emb(t2, 0, t1, 0);
    lemma_emb_size(t1, 0, t2, 0);
    lemma_emb_size(t2, 0, t1, 0);
    lemma_root_covers(t1);
    lemma_root_covers(t2);
}

/// The subtree at `x` of `a` and the subtree at `y` of `b` are the same
/// unordered labelled tree: the labels agree, and the children pair up one to
/// one (`g` is injective between lists of the same length, so it is a
/// bijection) with pairwise isomorphic subtrees. Child order and node numbers
/// do not matter.
pub open spec fn iso_at(a: TreeView, x: int, b: TreeView, y: int) -> bool
    decreases a.len() - x,
{
    &&& 0 <= x < a.len()
    &&& 0 <= y < b.len()
    &&& a.label(x) == b.label(y)
    &&& a.kids(x).len() == b.kids(y).len()
    &&& exists|g: Seq<int>|
        #[trigger] inj_into(g, b.kids(y).len() as int) && g.len() == a.kids(x).len() && forall|i: int|
            0 <= i < g.len() ==> x < #[trigger] a.kids(x)[i] < a.len() && iso_at(
                a,
                a.kids(x)[i] as int,
                b,
                b.kids(y)[g[i]] as int,
            )
}

/// Two trees are isomorphic as unordered rooted labelled trees.
pub open spec fn isomorphic(a: TreeView, b: TreeView) -> bool {
    iso_at(a, a.root as int, b, b.root as int)
}

/// Sequences whose entries pair up one to one have the same entries, counted
/// with multiplicity.
pub proof fn lemma_matching_multiset<A>(a: Seq<A>, b: Seq<A>, f: Seq<int>)
    requires
        matching(a, b, f),
        a.len() == b.len(),
    ensures
        a.to_multiset() == b.to_multiset(),
    decreases a.len(),
{
    if a.len() > 0 {
        let n = a.len() - 1;
        let j = f[n];
        let a1 = a.drop_last();
        let b1 = b.remove(j);
        b.remove_ensures(j);
        let g = Seq::new(a1.len(), |i: int| if f[i] < j { f[i] } else { f[i] - 1 });
        assert forall|i: int| 0 <= i < g.len() implies 0 <= #[trigger] g[i] < b1.len() by {
            assert(f[i] != f[n]);
        }
        assert forall|i: int, m: int| 0 <= i < g.len() && 0 <= m < g.len() && i != m implies g[i] != g[m] by {
            assert(f[i] != f[m]);
            assert(f[i] != j && f[m] != j);
        }
        assert forall|i: int| 0 <= i < g.len() implies a1[i] == b1[#[trigger] g[i]] by {
            assert(a1[i] == a[i]);
            assert(a[i] == b[f[i]]);
            assert(f[i] != j);
        }
        assert(matching(a1, b1, g));
        lemma_matching_multiset(a1, b1, g);
        assert(a1.push(a[n]) =~= a);
        vstd::seq_lib::to_multiset_build(a1, a[n]);
        vstd::seq_lib::to_multiset_remove(b, j);
        assert(b.to_multiset().count(b[j]) > 0) by {
            vstd::seq_lib::to_multiset_contains(b, b[j]);
            assert(b.contains(b[j]));
        }
        assert(a.to_multiset() =~= b.to_multiset());
    } else {
        assert(a =~= b);
    }
}

/// Nodes with the same canonical form have isomorphic subtrees.
pub proof fn lemma_same_canon_iso(t1: TreeView, x: int, t2: TreeView, y: int)
    requires
        t1.wf(),
        t2.wf(),
        0 <= x < t1.len(),
        0 <= y < t2.len(),
        canon(t1, x) == canon(t2, y),
    ensures
        iso_at(t1, x, t2, y),
    decreases t1.len() - x,
{
    let m1 = t1.kids(x).len() as int;
    let m2 = t2.kids(y).len() as int;
    let kc1 = kid_canons(t1, x, m1);
    let kc2 = kid_canons(t2, y, m2);
    lemma_canon_unfold(t1, x);
    lemma_canon_unfold(t2, y);
    assert forall|j: int| 0 <= j < kc1.len() implies form_like(#[trigger] kc1[j]) by {
        lemma_kid_canons_index(t1, x, m1, j);
        lemma_canon_form_like(t1, t1.kids(x)[j] as int);
    }
    assert forall|j: int| 0 <= j < kc2.len() implies form_like(#[trigger] kc2[j]) by {
        lemma_kid_canons_index(t2, y, m2, j);
        lemma_canon_form_like(t2, t2.kids(y)[j] as int);
    }
    lemma_form_of_injective(t1.label(x), kc1, t2.label(y), kc2);
    vstd::seq_lib::to_multiset_len(kc1);
    vstd::seq_lib::to_multiset_len(kc2);
    lemma_multiset_matching(kc1, kc2);
    let f = choose|f: Seq<int>| #[trigger] matching(kc1, kc2, f);
    assert forall|i: int| 0 <= i < f.len() implies x < #[trigger] t1.kids(x)[i] < t1.len() && iso_at(
        t1,
        t1.kids(x)[i] as int,
        t2,
        t2.kids(y)[f[i]] as int,
    ) by {
        let c = t1.kids(x)[i];
        let w = t2.kids(y)[f[i]];
        assert(x < c < t1.len());
        assert(y < w < t2.len());
        lemma_kid_canons_index(t1, x, m1, i);
        lemma_kid_canons_index(t2, y, m2, f[i]);
        assert(kc1[i] == kc2[f[i]]);
        lemma_same_canon_iso(t1, c as int, t2, w as int);
    }
    assert(inj_into(f, m2));
}

/// Isomorphic subtrees have the same canonical form.
pub proof fn lemma_iso_same_canon(t1: TreeView, x: int, t2: TreeView, y: int)
    requires
        t1.wf(),
        t2.wf(),
        iso_at(t1, x, t2, y),
    ensures
        canon(t1, x) == canon(t2, y),
    decreases t1.len() - x,
{
    let m1 = t1.kids(x).len() as int;
    let m2 = t2.kids(y).len() as int;
    let kc1 = kid_canons(t1, x, m1);
    let kc2 = kid_canons(t2, y, m2);
    lemma_canon_unfold(t1, x);
    lemma_canon_unfold(t2, y);
    let g = choose|g: Seq<int>|
        #[trigger] inj_into(g, t2.kids(y).len() as int) && g.len() == t1.kids(x).len() && forall|i: int|
            0 <= i < g.len() ==> x < #[trigger] t1.kids(x)[i] < t1.len() && iso_at(
                t1,
                t1.kids(x)[i] as int,
                t2,
                t2.kids(y)[g[i]] as int,
            );
    assert forall|i: int| 0 <= i < g.len() implies kc1[i] == kc2[#[trigger] g[i]] by {
        let c = t1.kids(x)[i];
        let w = t2.kids(y)[g[i]];
        assert(x < c < t1.len());
        assert(iso_at(t1, c as int, t2, w as int));
        lemma_iso_same_canon(t1, c as int, t2, w as int);
        lemma_kid_canons_index(t1, x, m1, i);
        lemma_kid_canons_index(t2, y, m2, g[i]);
    }
    assert(matching(kc1, kc2, g));
    lemma_matching_multiset(kc1, kc2, g);
    lemma_sort_forms_by_multiset(kc1, kc2);
}

/// Equal canonical forms exactly when the trees are isomorphic as unordered
/// rooted labelled trees.
pub proof fn lemma_canon_iff_isomorphic(t1: TreeView, t2: TreeView)
    requires
        t1.wf(),
        t2.wf(),
    ensures
        tree_canon(t1) == tree_canon(t2) <==> isomorphic(t1, t2),
{
    if tree_canon(t1) == tree_canon(t2) {
        lemma_same_canon_iso(t1, 0, t2, 0);
    }
    if isomorphic(t1, t2) {
        lemma_iso_same_canon(t1, 0, t2, 0);
    }
}

} // verus!
