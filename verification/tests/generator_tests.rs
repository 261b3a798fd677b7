use tree3::embedding::embeds;
use tree3::generator::{generate_sequence, SelectionStrategy};

/// TREE(1) = 1: only label 1, sequence must terminate after the first tree.
#[test]
fn tree1_length_is_1() {
    let seq = generate_sequence(10, 10, 1, SelectionStrategy::LargestFirst, None, |_| {});
    assert_eq!(seq.len(), 1, "TREE(1) sequence must have exactly 1 tree");
    assert_eq!(seq[0].canonical, "1");
}

/// TREE(2) = 3: labels {1,2}, known exact value.
#[test]
fn tree2_length_is_3() {
    let seq = generate_sequence(10, 10, 2, SelectionStrategy::LargestFirst, None, |_| {});
    assert_eq!(seq.len(), 3, "TREE(2) sequence must have exactly 3 trees");
}

/// The i-th tree must have at most i nodes (enforced by the node budget rule).
#[test]
fn node_budget_respected() {
    let seq = generate_sequence(7, 8, 3, SelectionStrategy::LargestFirst, None, |_| {});
    for entry in &seq {
        assert!(
            entry.tree.size() <= entry.index,
            "T{} has {} nodes, expected <= {}",
            entry.index,
            entry.tree.size(),
            entry.index
        );
    }
}

/// First tree must always be a single-node tree (1 node at position 1).
#[test]
fn first_tree_is_single_node() {
    let seq = generate_sequence(5, 8, 3, SelectionStrategy::LargestFirst, None, |_| {});
    assert!(!seq.is_empty());
    assert_eq!(seq[0].tree.size(), 1);
}

/// No tree in the sequence may embed into any later tree (the core invariant).
#[test]
fn sequence_invariant_largest_strategy() {
    let seq = generate_sequence(10, 8, 3, SelectionStrategy::LargestFirst, None, |_| {});
    for i in 0..seq.len() {
        for j in (i + 1)..seq.len() {
            assert!(
                !embeds(&seq[i].tree, &seq[j].tree),
                "invariant violated: T{} embeds into T{}",
                i + 1,
                j + 1
            );
        }
    }
}

#[test]
fn sequence_invariant_smallest_strategy() {
    let seq = generate_sequence(10, 8, 3, SelectionStrategy::SmallestFirst, None, |_| {});
    for i in 0..seq.len() {
        for j in (i + 1)..seq.len() {
            assert!(
                !embeds(&seq[i].tree, &seq[j].tree),
                "invariant violated: T{} embeds into T{} (smallest strategy)",
                i + 1,
                j + 1
            );
        }
    }
}

/// Known exact canonical forms for first 7 trees under largest strategy.
#[test]
fn known_sequence_regression_largest() {
    let expected = [
        "1",
        "2(2)",
        "2(3(3))",
        "2(3,3,3)",
        "3(2(3),2(3))",
        "3(2(3),3(2,2))",
        "3(2(3),3(2),3(2))",
    ];
    let seq = generate_sequence(7, 8, 3, SelectionStrategy::LargestFirst, None, |_| {});
    assert_eq!(seq.len(), expected.len());
    for (i, (entry, exp)) in seq.iter().zip(expected.iter()).enumerate() {
        assert_eq!(entry.canonical, *exp, "T{} mismatch: got '{}', expected '{}'", i + 1, entry.canonical, exp);
    }
}
