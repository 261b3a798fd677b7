use tree3::embedding::embeds;
use tree3::tree::Tree;

/// Single node with the given label.
fn leaf(label: u32) -> Tree {
    Tree::new_single_node(label)
}

/// Build a tree from a root label and child subtrees.
fn tree(root: u32, children: &[Tree]) -> Tree {
    Tree::from_root_and_children(root, children)
}

#[test]
fn leaf_embeds_into_itself() {
    let a = leaf(1);
    assert!(embeds(&a, &a));
}

#[test]
fn leaf_does_not_embed_different_label() {
    let a = leaf(1);
    let b = leaf(2);
    assert!(!embeds(&a, &b));
    assert!(!embeds(&b, &a));
}

#[test]
fn leaf_embeds_into_any_tree_with_matching_label() {
    let a = leaf(2);
    // b is  2(3,3,3)
    let b = tree(2, &[leaf(3), leaf(3), leaf(3)]);
    assert!(embeds(&a, &b));
}

#[test]
fn larger_tree_cannot_embed_into_smaller() {
    let a = tree(1, &[leaf(1), leaf(1)]);
    let b = leaf(1);
    assert!(!embeds(&a, &b));
}

#[test]
fn chain_embeds_into_longer_chain() {
    // a = 1(2)   b = 1(2(3))
    let a = tree(1, &[leaf(2)]);
    let b = tree(1, &[tree(2, &[leaf(3)])]);
    assert!(embeds(&a, &b));
}

#[test]
fn chain_does_not_embed_wrong_label() {
    // a = 1(2)   b = 1(3)  — label mismatch on child
    let a = tree(1, &[leaf(2)]);
    let b = tree(1, &[leaf(3)]);
    assert!(!embeds(&a, &b));
}

#[test]
fn branching_embeds_into_wider_tree() {
    // a = 1(2,2)   b = 1(2,2,2)
    let a = tree(1, &[leaf(2), leaf(2)]);
    let b = tree(1, &[leaf(2), leaf(2), leaf(2)]);
    assert!(embeds(&a, &b));
}

#[test]
fn wider_tree_does_not_embed_into_narrower() {
    // a = 1(2,2,2)   b = 1(2,2)
    let a = tree(1, &[leaf(2), leaf(2), leaf(2)]);
    let b = tree(1, &[leaf(2), leaf(2)]);
    assert!(!embeds(&a, &b));
}

#[test]
fn subtree_root_can_embed_anywhere_not_just_root() {
    // a = 2(3)
    // b = 1(2(3))   — a's root maps to b's child, not b's root
    let a = tree(2, &[leaf(3)]);
    let b = tree(1, &[tree(2, &[leaf(3)])]);
    assert!(embeds(&a, &b));
}

#[test]
fn two_children_need_two_distinct_branches() {
    // a = 1(2,2)   b = 1(2)   — b has only one branch for label 2
    let a = tree(1, &[leaf(2), leaf(2)]);
    let b = tree(1, &[leaf(2)]);
    assert!(!embeds(&a, &b));
}

#[test]
fn children_use_distinct_branches_deep() {
    // a = 3(2(3),2(3))
    // b = 3(2(3),2(3),1)  — extra child doesn't break it
    let a23 = tree(2, &[leaf(3)]);
    let a = tree(3, &[a23.clone(), a23.clone()]);
    let b = tree(3, &[a23.clone(), a23.clone(), leaf(1)]);
    assert!(embeds(&a, &b));
}

// The exact trees produced by `generate --count 7 --labels 3 --max-nodes 8 --strategy largest`.
fn known_tree(index: usize) -> Tree {
    // T1=1  T2=2(2)  T3=2(3(3))  T4=2(3,3,3)
    // T5=3(2(3),2(3))  T6=3(2(3),3(2,2))  T7=3(2(3),3(2),3(2))
    match index {
        1 => leaf(1),
        2 => tree(2, &[leaf(2)]),
        3 => tree(2, &[tree(3, &[leaf(3)])]),
        4 => tree(2, &[leaf(3), leaf(3), leaf(3)]),
        5 => tree(3, &[tree(2, &[leaf(3)]), tree(2, &[leaf(3)])]),
        6 => tree(3, &[tree(2, &[leaf(3)]), tree(3, &[leaf(2), leaf(2)])]),
        7 => tree(3, &[tree(2, &[leaf(3)]), tree(3, &[leaf(2)]), tree(3, &[leaf(2)])]),
        _ => panic!("unknown index"),
    }
}

/// No earlier tree in the sequence may embed into any later one.
#[test]
fn sequence_no_earlier_embeds_into_later() {
    let trees: Vec<Tree> = (1..=7).map(known_tree).collect();
    for i in 0..trees.len() {
        for j in (i + 1)..trees.len() {
            assert!(!embeds(&trees[i], &trees[j]), "T{} should NOT embed into T{}", i + 1, j + 1);
        }
    }
}

/// Reflexivity: every tree embeds into itself.
#[test]
fn every_known_tree_embeds_into_itself() {
    for i in 1..=7 {
        let t = known_tree(i);
        assert!(embeds(&t, &t), "T{} should embed into itself", i);
    }
}

#[test]
fn deeper_path_embeds_when_labels_match_on_the_way() {
    // a = 1(3)   b = 1(2(3)) : the middle node is skipped
    let a = tree(1, &[leaf(3)]);
    let b = tree(1, &[tree(2, &[leaf(3)])]);
    assert!(embeds(&a, &b));
    assert!(!embeds(&b, &a));
}

#[test]
fn children_in_one_branch_do_not_count_twice() {
    // a = 1(2,2)   b = 1(3(2,2)) : both 2s lie in one branch of the root
    let a = tree(1, &[leaf(2), leaf(2)]);
    let b = tree(1, &[tree(3, &[leaf(2), leaf(2)])]);
    assert!(!embeds(&a, &b));
}
