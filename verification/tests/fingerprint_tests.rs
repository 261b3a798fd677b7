use tree3::embedding::embeds;
use tree3::fingerprint::TreeFingerprint;
use tree3::tree::Tree;

fn leaf(label: u32) -> Tree {
    Tree::new_single_node(label)
}
fn tree(root: u32, children: &[Tree]) -> Tree {
    Tree::from_root_and_children(root, children)
}

#[test]
fn same_tree_compatible_with_itself() {
    let t = tree(2, &[leaf(3), leaf(3)]);
    let fp = TreeFingerprint::compute(&t);
    assert!(TreeFingerprint::compatible(&fp, &fp));
}

#[test]
fn larger_rejected_by_size() {
    let big = tree(1, &[leaf(1), leaf(1)]);
    let small = leaf(1);
    let fp_big = TreeFingerprint::compute(&big);
    let fp_small = TreeFingerprint::compute(&small);
    assert!(!TreeFingerprint::compatible(&fp_big, &fp_small));
}

#[test]
fn missing_label_rejected() {
    let a = tree(1, &[leaf(2)]);
    let b = tree(1, &[leaf(3)]);
    let fp_a = TreeFingerprint::compute(&a);
    let fp_b = TreeFingerprint::compute(&b);
    assert!(!TreeFingerprint::compatible(&fp_a, &fp_b));
}

#[test]
fn max_degree_rejects_too_wide() {
    // A has a label-1 node with 3 children; B's only label-1 node has 2.
    let a = tree(1, &[leaf(2), leaf(2), leaf(2)]);
    let b = tree(1, &[leaf(2), leaf(2)]);
    let fp_a = TreeFingerprint::compute(&a);
    let fp_b = TreeFingerprint::compute(&b);
    assert!(!TreeFingerprint::compatible(&fp_a, &fp_b));
}

#[test]
fn max_degree_passes_wider_b() {
    let a = tree(1, &[leaf(2), leaf(2)]);
    let b = tree(1, &[leaf(2), leaf(2), leaf(2)]);
    let fp_a = TreeFingerprint::compute(&a);
    let fp_b = TreeFingerprint::compute(&b);
    assert!(TreeFingerprint::compatible(&fp_a, &fp_b));
}

#[test]
fn fingerprint_figures() {
    // 2(3(9),3,9): labels above 7 share bucket 7
    let t = tree(2, &[tree(3, &[leaf(9)]), leaf(3), leaf(9)]);
    let fp = TreeFingerprint::compute(&t);
    assert_eq!(fp.size, 5);
    assert_eq!(fp.label_counts, [0, 0, 1, 2, 0, 0, 0, 2]);
    assert_eq!(fp.max_degree_per_label, [0, 0, 3, 1, 0, 0, 0, 0]);
}

#[test]
fn embedding_pairs_pass_the_fingerprint_check() {
    let a = tree(1, &[tree(2, &[leaf(3)])]);
    let b = tree(1, &[tree(4, &[tree(2, &[leaf(3), leaf(3)])]), leaf(5)]);
    assert!(embeds(&a, &b));
    let fa = TreeFingerprint::compute(&a);
    let fb = TreeFingerprint::compute(&b);
    assert!(TreeFingerprint::compatible(&fa, &fb));
}
