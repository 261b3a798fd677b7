use tree3::canonical::{canonicalize, decimal_text};
use tree3::tree::Tree;

fn leaf(label: u32) -> Tree {
    Tree::new_single_node(label)
}
fn tree(root: u32, children: &[Tree]) -> Tree {
    Tree::from_root_and_children(root, children)
}

#[test]
fn single_node() {
    assert_eq!(canonicalize(&leaf(1)), "1");
    assert_eq!(canonicalize(&leaf(3)), "3");
}

#[test]
fn simple_chain() {
    let t = tree(2, &[leaf(3)]);
    assert_eq!(canonicalize(&t), "2(3)");
}

#[test]
fn children_are_sorted() {
    // Build with children in reverse canonical order; canonical form must sort them.
    let t_ba = tree(1, &[leaf(3), leaf(2)]);
    let t_ab = tree(1, &[leaf(2), leaf(3)]);
    assert_eq!(canonicalize(&t_ba), canonicalize(&t_ab));
    assert_eq!(canonicalize(&t_ab), "1(2,3)");
}

#[test]
fn nested_children_sorted() {
    // 2(3(3),1)  and  2(1,3(3))  must produce the same canonical form
    let a = tree(2, &[tree(3, &[leaf(3)]), leaf(1)]);
    let b = tree(2, &[leaf(1), tree(3, &[leaf(3)])]);
    assert_eq!(canonicalize(&a), canonicalize(&b));
    assert_eq!(canonicalize(&a), "2(1,3(3))");
}

#[test]
fn known_sequence_canonicals() {
    let cases: &[(u32, &[&str], &str)] = &[
        // (root_label, children_canonicals_desc, expected_full_canonical)
    ];
    // Directly verify expected strings:
    let checks: &[(&str, Tree)] = &[
        ("1", Tree::new_single_node(1)),
        ("2(2)", Tree::from_root_and_children(2, &[Tree::new_single_node(2)])),
        ("2(3(3))", Tree::from_root_and_children(2, &[Tree::from_root_and_children(3, &[Tree::new_single_node(3)])])),
        ("2(3,3,3)", Tree::from_root_and_children(2, &[Tree::new_single_node(3), Tree::new_single_node(3), Tree::new_single_node(3)])),
    ];
    let _ = cases; // suppress unused warning
    for (expected, tree) in checks {
        assert_eq!(canonicalize(tree), *expected);
    }
}

#[test]
fn multi_digit_labels_sort_as_text() {
    // "10" < "2" in text order
    let t = tree(1, &[leaf(2), leaf(10)]);
    assert_eq!(canonicalize(&t), "1(10,2)");
}

#[test]
fn decimal_text_of_numbers() {
    assert_eq!(decimal_text(0), "0");
    assert_eq!(decimal_text(7), "7");
    assert_eq!(decimal_text(10), "10");
    assert_eq!(decimal_text(4294967295), "4294967295");
}

#[test]
fn equal_trees_in_any_child_order_share_a_form() {
    let a = tree(1, &[tree(2, &[leaf(3), leaf(1)]), leaf(2), tree(2, &[leaf(1)])]);
    let b = tree(1, &[tree(2, &[leaf(1)]), leaf(2), tree(2, &[leaf(1), leaf(3)])]);
    assert_eq!(canonicalize(&a), canonicalize(&b));
    assert_eq!(canonicalize(&a), "1(2,2(1),2(1,3))");
}
