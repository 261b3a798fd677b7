//! Canonical string forms of trees: `label(child1,child2,...)` with the children's
//! forms sorted, so that two trees have the same form exactly when they are equal
//! as unordered labelled trees.

use vstd::prelude::*;
use vstd::relations::sorted_by;
use crate::order::{
    lemma_text_le_total, lemma_text_le_trans, lemma_text_order, text_le, text_less,
};
use crate::tree::{Tree, TreeView};

verus! {

/// The text order as a relation value.
pub open spec fn text_order() -> spec_fn(Seq<char>, Seq<char>) -> bool {
    |a: Seq<char>, b: Seq<char>| text_le(a, b)
}

/// The decimal digit character for `d < 10`.
pub open spec fn digit_char(d: nat) -> char {
    if d == 0 {
        '0'
    } else if d == 1 {
        '1'
    } else if d == 2 {
        '2'
    } else if d == 3 {
        '3'
    } else if d == 4 {
        '4'
    } else if d == 5 {
        '5'
    } else if d == 6 {
        '6'
    } else if d == 7 {
        '7'
    } else if d == 8 {
        '8'
    } else {
        '9'
    }
}

/// Decimal representation of `n`, without leading zeros.
pub open spec fn decimal(n: nat) -> Seq<char>
    decreases n,
{
    if n < 10 {
        seq![digit_char(n)]
    } else {
        decimal(n / 10).push(digit_char(n % 10))
    }
}

/// The texts of `ss` separated by commas.
pub open spec fn join(ss: Seq<Seq<char>>) -> Seq<char>
    decreases ss.len(),
{
    if ss.len() == 0 {
        seq![]
    } else if ss.len() == 1 {
        ss[0]
    } else {
        join(ss.drop_last()) + seq![','] + ss.last()
    }
}

/// Canonical form of the subtree at `i`: the label alone for a leaf, otherwise
/// the label followed by the sorted canonical forms of the children in parentheses.
pub open spec fn canon(t: TreeView, i: int) -> Seq<char>
    decreases t.len() - i, t.kids(i).len() + 1,
{
    if 0 <= i < t.len() {
        if t.kids(i).len() == 0 {
            decimal(t.label(i) as nat)
        } else {
            decimal(t.label(i) as nat) + seq!['('] + join(
                kid_canons(t, i, t.kids(i).len() as int).sort_by(text_order()),
            ) + seq![')']
        }
    } else {
        seq![]
    }
}

/// Canonical forms of the first `k` children of `i`, in child order.
pub open spec fn kid_canons(t: TreeView, i: int, k: int) -> Seq<Seq<char>>
    decreases t.len() - i, k,
{
    if 0 <= i < t.len() && 0 < k <= t.kids(i).len() {
        let c = t.kids(i)[k - 1];
        kid_canons(t, i, k - 1).push(
            if i < c < t.len() {
                canon(t, c as int)
            } else {
                seq![]
            },
        )
    } else {
        seq![]
    }
}

/// Canonical form of a whole tree.
pub open spec fn tree_canon(t: TreeView) -> Seq<char> {
    canon(t, t.root as int)
}

pub open spec fn texts(v: Seq<String>) -> Seq<Seq<char>> {
    v.map_values(|s: String| s@)
}

/// The texts are in nondecreasing text order.
pub open spec fn sorted_text(s: Seq<Seq<char>>) -> bool {
    forall|a: int, b: int| 0 <= a < b < s.len() ==> text_le(#[trigger] s[a], #[trigger] s[b])
}

/// Sorted in text order, stated for the library relation.
pub proof fn lemma_sorted_text_by(s: Seq<Seq<char>>)
    requires
        sorted_text(s),
    ensures
        sorted_by(s, text_order()),
{
    assert forall|a: int, b: int| 0 <= a < b < s.len() implies #[trigger] (text_order())(s[a], s[b]) by {
        assert(text_le(s[a], s[b]));
    }
}

/// A sorted arrangement of `s` is its sort.
pub proof fn lemma_sorted_is_sort(x: Seq<Seq<char>>, s: Seq<Seq<char>>)
    requires
        sorted_text(x),
        x.to_multiset() == s.to_multiset(),
    ensures
        x == s.sort_by(text_order()),
{
    lemma_text_order();
    lemma_sorted_text_by(x);
    s.lemma_sort_by_ensures(text_order());
    vstd::seq_lib::lemma_sorted_unique(x, s.sort_by(text_order()), text_order());
}

fn digit_text(d: u32) -> (r: &'static str)
    requires
        d < 10,
    ensures
        r@ == seq![digit_char(d as nat)],
{
    if d == 0 {
        proof { reveal_strlit("0"); }
        "0"
    } else if d == 1 {
        proof { reveal_strlit("1"); }
        "1"
    } else if d == 2 {
        proof { reveal_strlit("2"); }
        "2"
    } else if d == 3 {
        proof { reveal_strlit("3"); }
        "3"
    } else if d == 4 {
        proof { reveal_strlit("4"); }
        "4"
    } else if d == 5 {
        proof { reveal_strlit("5"); }
        "5"
    } else if d == 6 {
        proof { reveal_strlit("6"); }
        "6"
    } else if d == 7 {
        proof { reveal_strlit("7"); }
        "7"
    } else if d == 8 {
        proof { reveal_strlit("8"); }
        "8"
    } else {
        proof { reveal_strlit("9"); }
        "9"
    }
}

/// Decimal text of a number.
pub fn decimal_text(n: u32) -> (s: String)
    ensures
        s@ == decimal(n as nat),
    decreases n,
{
    if n < 10 {
        String::from_str(digit_text(n))
    } else {
        let mut s = decimal_text(n / 10);
        s.append(digit_text(n % 10));
        s
    }
}

/// Insert `s` into the sorted vector `v` before the first element not smaller than it.
fn insert_sorted(v: &mut Vec<String>, s: String)
    requires
        sorted_text(texts(old(v)@)),
    ensures
        sorted_text(texts(final(v)@)),
        texts(final(v)@).to_multiset() == texts(old(v)@).to_multiset().insert(s@),
        final(v)@.len() == old(v)@.len() + 1,
{
    let mut pos: usize = 0;
    while pos < v.len() && text_less(v[pos].as_str(), s.as_str())
        invariant
            pos <= v@.len(),
            v@ == old(v)@,
            forall|k: int| 0 <= k < pos ==> text_le(#[trigger] texts(v@)[k], s@) && texts(v@)[k] != s@,
        decreases v@.len() - pos,
    {
        pos += 1;
    }
    let ghost before = texts(v@);
    v.insert(pos, s);
    proof {
        let after = texts(v@);
        assert(after =~= before.insert(pos as int, s@));
        vstd::seq_lib::to_multiset_insert(before, pos as int, s@);
        if pos < before.len() {
            lemma_text_le_total(s@, before[pos as int]);
            assert(text_le(s@, before[pos as int]));
        }
        assert forall|a: int, b: int| 0 <= a < b < after.len() implies text_le(#[trigger] after[a], #[trigger] after[b]) by {
            if b < pos {
                assert(after[a] == before[a] && after[b] == before[b]);
            } else if b == pos {
                assert(after[a] == before[a]);
                assert(text_le(before[a], s@));
            } else if a == pos {
                assert(after[b] == before[b - 1]);
                if b - 1 > pos {
                    assert(text_le(before[pos as int], before[b - 1]));
                    lemma_text_le_trans(s@, before[pos as int], before[b - 1]);
                }
            } else if a < pos {
                assert(after[b] == before[b - 1]);
                assert(after[a] == before[a]);
                assert(text_le(before[a], before[b - 1]));
            } else {
                assert(after[b] == before[b - 1]);
                assert(after[a] == before[a - 1]);
            }
        }
    }
}

/// Compute the canonical string representation of a tree.
/// Format: label(child1,child2,...) where children are sorted lexicographically.
/// A leaf with label l is represented as just "l".
pub fn canonicalize(tree: &Tree) -> (s: String)
    requires
        tree@.wf(),
    ensures
        s@ == tree_canon(tree@),
{
    canon_node(tree, tree.root)
}

fn canon_node(tree: &Tree, node_idx: usize) -> (s: String)
    requires
        tree@.wf(),
        node_idx < tree@.len(),
    ensures
        s@ == canon(tree@, node_idx as int),
    decreases tree@.len() - node_idx,
{
    let ghost t = tree@;
    let label = tree.nodes[node_idx].label;
    let children = &tree.nodes[node_idx].children;
    assert(children@ == t.kids(node_idx as int));
    if children.len() == 0 {
        return decimal_text(label);
    }
    let mut child_strs: Vec<String> = Vec::new();
    let mut j: usize = 0;
    assert(texts(child_strs@) =~= seq![]);
    assert(kid_canons(t, node_idx as int, 0) == Seq::<Seq<char>>::empty());
    while j < children.len()
        invariant
            t == tree@,
            t.wf(),
            node_idx < t.len(),
            children@ == t.kids(node_idx as int),
            j <= children@.len(),
            sorted_text(texts(child_strs@)),
            child_strs@.len() == j,
            texts(child_strs@).to_multiset() == kid_canons(t, node_idx as int, j as int).to_multiset(),
        decreases children@.len() - j,
    {
        let c = children[j];
        assert(node_idx < c < t.len());
        let cs = canon_node(tree, c);
        insert_sorted(&mut child_strs, cs);
        j += 1;
        proof {
            assert(kid_canons(t, node_idx as int, j as int) == kid_canons(t, node_idx as int, j - 1).push(canon(t, c as int)));
            vstd::seq_lib::lemma_seq_union_to_multiset_commutative(kid_canons(t, node_idx as int, j - 1), seq![canon(t, c as int)]);
            vstd::seq_lib::to_multiset_build(kid_canons(t, node_idx as int, j - 1), canon(t, c as int));
        }
    }
    proof {
        let kc = kid_canons(t, node_idx as int, children@.len() as int);
        lemma_sorted_is_sort(texts(child_strs@), kc);
    }
    let mut s = decimal_text(label);
    proof { reveal_strlit("("); reveal_strlit(")"); }
    s.append("(");
    assert(texts(child_strs@).take(0) =~= seq![]);
    let mut k: usize = 0;
    while k < child_strs.len()
        invariant
            0 <= k <= child_strs@.len(),
            child_strs@.len() > 0,
            s@ == decimal(label as nat) + seq!['('] + join(texts(child_strs@).take(k as int)),
        decreases child_strs@.len() - k,
    {
        let ghost prev = s@;
        if k > 0 {
            proof { reveal_strlit(","); }
            s.append(",");
        }
        s.append(child_strs[k].as_str());
        k += 1;
        proof {
            let ts = texts(child_strs@);
            assert(ts.take(k as int).drop_last() =~= ts.take(k - 1));
            assert(ts.take(k as int).last() == child_strs@[k - 1]@);
            if k == 1 {
                assert(join(ts.take(1)) == ts.take(1)[0]);
            }
            assert(s@ =~= decimal(label as nat) + seq!['('] + join(ts.take(k as int)));
        }
    }
    s.append(")");
    assert(texts(child_strs@).take(child_strs@.len() as int) == texts(child_strs@));
    s
}

} // verus!
