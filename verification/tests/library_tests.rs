use tree3::canonical::canonicalize;
use tree3::cli::{selection_strategy, StrategyArg};
use tree3::embedding::embeds;
use tree3::fingerprint::TreeFingerprint;
use tree3::gpu_sweep::{fp_to_flat, tree_to_flat};
use tree3::generator::{
    all_trees_of_size_cached, generate_sequence, generate_sequence_optimal, mix_clock_seed, resolve_seed, Rng,
    SelectionStrategy, TreeCache,
};
use tree3::svg_text::{escape_xml, label_color};
use tree3::tree::Tree;

fn leaf(label: u32) -> Tree {
    Tree::new_single_node(label)
}
fn tree(root: u32, children: &[Tree]) -> Tree {
    Tree::from_root_and_children(root, children)
}

#[test]
fn counts_of_trees_by_size() {
    let mut cache = TreeCache::new();
    let expected_k2 = [2usize, 4, 14, 52, 214];
    for (i, want) in expected_k2.iter().enumerate() {
        let list = all_trees_of_size_cached(i + 1, 2, &mut cache);
        assert_eq!(list.len(), *want, "size {}", i + 1);
    }
    let expected_k3 = [3usize, 9, 45, 246];
    for (i, want) in expected_k3.iter().enumerate() {
        let list = all_trees_of_size_cached(i + 1, 3, &mut cache);
        assert_eq!(list.len(), *want, "size {}", i + 1);
    }
    assert!(all_trees_of_size_cached(0, 3, &mut cache).is_empty());
}

#[test]
fn enumerated_trees_are_distinct_sorted_and_match_their_forms() {
    let mut cache = TreeCache::new();
    let list = all_trees_of_size_cached(4, 3, &mut cache);
    for w in list.windows(2) {
        assert!(w[0].0 < w[1].0);
    }
    for (canon, t) in &list {
        assert_eq!(t.size(), 4);
        assert_eq!(&canonicalize(t), canon);
    }
    // A second call is served from the cache and gives the same list.
    let again = all_trees_of_size_cached(4, 3, &mut cache);
    let forms: Vec<&String> = list.iter().map(|e| &e.0).collect();
    let forms_again: Vec<&String> = again.iter().map(|e| &e.0).collect();
    assert_eq!(forms, forms_again);
}

#[test]
fn single_nodes_come_by_label() {
    let mut cache = TreeCache::new();
    let list = all_trees_of_size_cached(1, 12, &mut cache);
    let forms: Vec<&str> = list.iter().map(|e| e.0.as_str()).collect();
    assert_eq!(forms, vec!["1", "2", "3", "4", "5", "6", "7", "8", "9", "10", "11", "12"]);
}

#[test]
fn size_two_trees_for_two_labels() {
    let mut cache = TreeCache::new();
    let list = all_trees_of_size_cached(2, 2, &mut cache);
    let forms: Vec<&str> = list.iter().map(|e| e.0.as_str()).collect();
    assert_eq!(forms, vec!["1(1)", "1(2)", "2(1)", "2(2)"]);
}

#[test]
fn rng_steps_are_xorshift() {
    let mut r = Rng::new(1);
    assert_eq!(r.next_u64(), 1082269761);
    assert_eq!(r.next_u64(), 1152992998833853505);
    let mut z = Rng::new(0);
    assert_eq!(z.next_u64(), 18338672410791262988);
    let mut q = Rng::new(42);
    assert_eq!(q.next_usize(10), 4);
}

#[test]
fn explicit_seed_is_kept() {
    assert_eq!(resolve_seed(Some(77)), 77);
    let _ = resolve_seed(None);
}

#[test]
fn random_strategy_gives_a_valid_reproducible_sequence() {
    let a = generate_sequence(8, 5, 3, SelectionStrategy::Random, Some(1001), |_| {});
    let b = generate_sequence(8, 5, 3, SelectionStrategy::Random, Some(1001), |_| {});
    let fa: Vec<&String> = a.iter().map(|e| &e.canonical).collect();
    let fb: Vec<&String> = b.iter().map(|e| &e.canonical).collect();
    assert_eq!(fa, fb);
    for (i, e) in a.iter().enumerate() {
        assert_eq!(e.index, i + 1);
        assert!(e.tree.size() <= e.index);
        for later in &a[i + 1..] {
            assert!(!embeds(&e.tree, &later.tree));
        }
    }
}

#[test]
fn callback_sees_every_entry_in_order() {
    let mut seen: Vec<usize> = Vec::new();
    let seq = generate_sequence(6, 4, 2, SelectionStrategy::SmallestFirst, None, |e| seen.push(e.index));
    assert_eq!(seen, (1..=seq.len()).collect::<Vec<_>>());
}

#[test]
fn smallest_first_starts_with_the_first_single_node() {
    let seq = generate_sequence(3, 4, 2, SelectionStrategy::SmallestFirst, None, |_| {});
    assert_eq!(seq[0].canonical, "1");
    assert_eq!(seq[1].canonical, "2");
}

#[test]
fn zero_count_or_zero_size_gives_nothing() {
    assert!(generate_sequence(0, 5, 3, SelectionStrategy::LargestFirst, None, |_| {}).is_empty());
    assert!(generate_sequence(5, 0, 3, SelectionStrategy::LargestFirst, None, |_| {}).is_empty());
    assert!(generate_sequence(5, 5, 0, SelectionStrategy::LargestFirst, None, |_| {}).is_empty());
}

#[test]
fn optimal_search_for_two_labels_finds_three() {
    let mut bests: Vec<usize> = Vec::new();
    let seq = generate_sequence_optimal(0, 4, 2, |s| bests.push(s.len()));
    assert_eq!(seq.len(), 3);
    assert_eq!(*bests.last().unwrap(), 3);
    for (i, e) in seq.iter().enumerate() {
        assert_eq!(e.index, i + 1);
        assert!(e.tree.size() <= e.index);
        assert_eq!(canonicalize(&e.tree), e.canonical);
        for later in &seq[i + 1..] {
            assert!(!embeds(&e.tree, &later.tree));
        }
    }
}

#[test]
fn optimal_search_stops_at_the_target() {
    let seq = generate_sequence_optimal(2, 3, 3, |_| {});
    assert_eq!(seq.len(), 2);
}

#[test]
fn tree_operations() {
    let mut t = leaf(1);
    let c = t.add_child(0, 2);
    let g = t.add_child(c, 3);
    assert_eq!((c, g), (1, 2));
    assert_eq!(t.size(), 3);
    assert_eq!(t.depth(g), 2);
    assert_eq!(t.max_depth(), 2);
    assert_eq!(t.label(g), 3);
    assert_eq!(t.subtree_size(c), 2);
    assert_eq!(t.all_subtree_sizes(), vec![3, 2, 1]);
    assert_eq!(t.subtree_nodes(0), vec![0, 1, 2]);
    let other = tree(4, &[leaf(5)]);
    t.graft(0, &other);
    assert_eq!(t.size(), 5);
    assert_eq!(t.nodes[0].children, vec![1, 3]);
    assert_eq!(t.nodes[3].parent, Some(0));
    assert_eq!(t.nodes[4].parent, Some(3));
    assert_eq!(canonicalize(&t), "1(2(3),4(5))");
    // the walk visits later children first
    assert_eq!(t.subtree_nodes(0), vec![0, 3, 4, 1, 2]);
}

#[test]
fn built_tree_layout() {
    let t = tree(7, &[leaf(1), tree(2, &[leaf(3)])]);
    assert_eq!(t.size(), 4);
    assert_eq!(t.root, 0);
    assert_eq!(t.nodes[0].children, vec![1, 2]);
    assert_eq!(t.nodes[2].children, vec![3]);
    let fp = TreeFingerprint::compute(&t);
    assert_eq!(fp.size, 4);
}

#[test]
fn clone_keeps_the_tree() {
    let t = tree(2, &[leaf(1), tree(3, &[leaf(1)])]);
    let u = t.clone();
    assert_eq!(canonicalize(&u), canonicalize(&t));
    assert_eq!(u.nodes.len(), t.nodes.len());
}

#[test]
fn xml_escaping() {
    assert_eq!(escape_xml("a<b>&\"c'"), "a&lt;b&gt;&amp;&quot;c&apos;");
    assert_eq!(escape_xml("T1 · 3 nodes"), "T1 · 3 nodes");
    assert_eq!(escape_xml(""), "");
}

#[test]
fn colours_by_label() {
    assert_eq!(label_color(1), "#4a90d9");
    assert_eq!(label_color(6), "#1abc9c");
    assert_eq!(label_color(0), "#888888");
    assert_eq!(label_color(42), "#888888");
}

#[test]
fn strategy_options_map_to_strategies() {
    assert_eq!(selection_strategy(StrategyArg::Smallest), SelectionStrategy::SmallestFirst);
    assert_eq!(selection_strategy(StrategyArg::Largest), SelectionStrategy::LargestFirst);
    assert_eq!(selection_strategy(StrategyArg::Random), SelectionStrategy::Random);
}

#[test]
fn flat_encoding_of_a_small_tree() {
    let t = tree(1, &[leaf(2), tree(3, &[leaf(4)])]);
    let f = tree_to_flat(&t);
    assert_eq!(f.n, 4);
    assert_eq!(f.labels, [1, 2, 3, 4, 0, 0, 0, 0, 0]);
    assert_eq!(f.par, [0xFF, 0, 0, 2, 0, 0, 0, 0, 0]);
    assert_eq!(f.n_ch, [2, 0, 1, 0, 0, 0, 0, 0, 0]);
    assert_eq!(f.sz, [4, 1, 2, 1, 0, 0, 0, 0, 0]);
    assert_eq!(f.ch[0], [2, 1, 0, 0, 0, 0, 0, 0]);
    assert_eq!(f.ch[2], [3, 0, 0, 0, 0, 0, 0, 0]);
    assert_eq!(f.ch[1], [0; 8]);
    let fp = TreeFingerprint::compute(&t);
    let ff = fp_to_flat(&fp);
    assert_eq!(ff.size, 4);
    assert_eq!(ff.label_counts, fp.label_counts);
    assert_eq!(ff.max_deg, fp.max_degree_per_label);
    assert_eq!(ff._pad, [0; 3]);
}

#[test]
fn flat_encoding_keeps_eight_children() {
    let kids: Vec<Tree> = (1..=8).map(leaf).collect();
    let t = tree(9, &kids);
    let f = tree_to_flat(&t);
    assert_eq!(f.n, 9);
    assert_eq!(f.n_ch[0], 8);
    let mut row = f.ch[0].to_vec();
    row.sort();
    assert_eq!(row, vec![1, 2, 3, 4, 5, 6, 7, 8]);
}

#[test]
fn same_form_trees_embed_both_ways() {
    // The same unordered tree built with its children in two orders.
    let a = tree(1, &[tree(2, &[leaf(3)]), leaf(3), leaf(2)]);
    let b = tree(1, &[leaf(2), leaf(3), tree(2, &[leaf(3)])]);
    assert_eq!(canonicalize(&a), canonicalize(&b));
    assert_eq!(canonicalize(&a), "1(2,2(3),3)");
    assert_eq!(a.size(), b.size());
    assert!(embeds(&a, &b));
    assert!(embeds(&b, &a));
    // A tree with another form does not embed back.
    let c = tree(1, &[leaf(2), leaf(3)]);
    assert_ne!(canonicalize(&a), canonicalize(&c));
    assert!(embeds(&c, &a));
    assert!(!embeds(&a, &c));
}

#[test]
fn embedding_chains_compose() {
    let a = tree(1, &[leaf(2)]);
    let b = tree(1, &[tree(3, &[leaf(2)])]);
    let c = tree(1, &[tree(2, &[leaf(1)]), tree(3, &[tree(3, &[leaf(2)])])]);
    assert!(embeds(&a, &b));
    assert!(embeds(&b, &c));
    assert!(embeds(&a, &c));
    // Reflexivity on the same trees.
    assert!(embeds(&a, &a));
    assert!(embeds(&c, &c));
}

#[test]
fn optimal_result_beats_a_hand_made_valid_sequence() {
    // A valid TREE(2) sequence of three trees, written by hand.
    let hand = [leaf(1), tree(2, &[leaf(2)]), leaf(2)];
    for p in 0..hand.len() {
        assert!(hand[p].size() <= p + 1);
        for r in p + 1..hand.len() {
            assert!(!embeds(&hand[p], &hand[r]));
        }
    }
    let best = generate_sequence_optimal(0, 3, 2, |_| {});
    assert!(best.len() >= hand.len());
}

fn first_open_check(strategy: SelectionStrategy, largest: bool) {
    let max_nodes = 4;
    let k = 2;
    let seq = generate_sequence(8, max_nodes, k, strategy, None, |_| {});
    assert!(!seq.is_empty());
    let mut cache = TreeCache::new();
    for (p, e) in seq.iter().enumerate() {
        let limit = (p + 1).min(max_nodes);
        for sz in 1..=limit {
            let list = all_trees_of_size_cached(sz, k, &mut cache);
            for (canon, t) in &list {
                let before = if largest {
                    sz > e.tree.size() || (sz == e.tree.size() && canon < &e.canonical)
                } else {
                    sz < e.tree.size() || (sz == e.tree.size() && canon < &e.canonical)
                };
                if before {
                    assert!(seq[..p].iter().any(|q| embeds(&q.tree, t)), "{} open before {}", canon, e.canonical);
                }
            }
        }
    }
}

#[test]
fn smallest_first_takes_the_first_open_tree() {
    first_open_check(SelectionStrategy::SmallestFirst, false);
}

#[test]
fn largest_first_takes_the_first_open_tree() {
    first_open_check(SelectionStrategy::LargestFirst, true);
}

#[test]
fn a_short_sequence_leaves_nothing_open() {
    // With labels {1, 2} and at most 2 nodes the game ends before 10 trees.
    let seq = generate_sequence(10, 2, 2, SelectionStrategy::SmallestFirst, None, |_| {});
    assert!(seq.len() < 10);
    let mut cache = TreeCache::new();
    for sz in 1..=2 {
        for (_, t) in &all_trees_of_size_cached(sz, 2, &mut cache) {
            if t.size() <= seq.len() + 1 {
                assert!(seq.iter().any(|q| embeds(&q.tree, t)));
            }
        }
    }
}

#[test]
fn clock_readings_are_mixed() {
    assert_eq!(mix_clock_seed(Some(1)), 0x9e3779b97f4a7c15);
    assert_eq!(mix_clock_seed(Some(0)), 0);
    assert_eq!(mix_clock_seed(None), 0xdeadbeefu64.wrapping_mul(0x9e3779b97f4a7c15));
    assert_eq!(mix_clock_seed(Some(2)), 0x9e3779b97f4a7c15u64.wrapping_mul(2));
}

#[test]
fn optimal_search_takes_the_first_longest_sequence() {
    let mut calls: Vec<Vec<String>> = Vec::new();
    let seq = generate_sequence_optimal(0, 2, 2, |s| calls.push(s.iter().map(|e| e.canonical.clone()).collect()));
    let forms: Vec<&str> = seq.iter().map(|e| e.canonical.as_str()).collect();
    assert_eq!(forms, vec!["1", "2(2)", "2"]);
    let idx: Vec<usize> = seq.iter().map(|e| e.index).collect();
    assert_eq!(idx, vec![1, 2, 3]);
    assert_eq!(calls.last().unwrap(), &vec!["1".to_string(), "2(2)".to_string(), "2".to_string()]);
}

#[test]
fn optimal_search_never_exceeds_the_target() {
    for count in 1..4 {
        let seq = generate_sequence_optimal(count, 3, 3, |_| {});
        assert!(seq.len() <= count);
    }
}

#[test]
fn one_node_lists_come_in_label_order() {
    let mut cache = TreeCache::new();
    let list = all_trees_of_size_cached(1, 5, &mut cache);
    assert_eq!(list.len(), 5);
    for (i, (c, t)) in list.iter().enumerate() {
        assert_eq!(t.size(), 1);
        assert_eq!(t.label(0), i as u32 + 1);
        assert_eq!(c, &(i + 1).to_string());
    }
}

#[test]
fn trees_numbered_differently_share_their_form() {
    // 1(2(3), 3) built depth first and breadth first.
    let mut a = leaf(1);
    let a2 = a.add_child(0, 2);
    a.add_child(a2, 3);
    a.add_child(0, 3);
    let mut b = leaf(1);
    b.add_child(0, 3);
    let b2 = b.add_child(0, 2);
    b.add_child(b2, 3);
    assert_eq!(canonicalize(&a), canonicalize(&b));
    assert_eq!(canonicalize(&a), "1(2(3),3)");
    // Moving the leaf 3 under the root's other child changes the tree and its form.
    let mut c = leaf(1);
    let c2 = c.add_child(0, 2);
    c.add_child(c2, 3);
    c.add_child(c2, 3);
    assert_ne!(canonicalize(&a), canonicalize(&c));
}
