use sequence_engine::select::SelectedFragments;
use sequence_engine::tree::{FragmentId, FragmentTree};

/// One evaluation-plus-selection pass over a distribution tree.
fn dist_tick(tree: &mut FragmentTree<String>) -> SelectedFragments {
    tree.clear_evals();
    tree.evaluate_limits();
    tree.evaluate_always();
    tree.update_distribution_items();
    tree.select_fragments()
}

/// A root container holding one leaf per name, weighted as given.
fn weighted(names: &[&str], weights: Vec<u64>) -> (FragmentTree<String>, FragmentId, Vec<FragmentId>) {
    let mut tree: FragmentTree<String> = FragmentTree::new();
    let root = tree.create(None).unwrap();
    assert!(tree.set_root(root));
    assert!(tree.set_always(root));
    let mut leaves = Vec::new();
    for name in names {
        let leaf = tree.create(Some(root)).unwrap();
        assert!(tree.set_leaf(leaf, name.to_string()));
        leaves.push(leaf);
    }
    assert!(tree.set_distribution(root, weights));
    (tree, root, leaves)
}

#[test]
fn distribution_respects_weights_statistically() {
    let (mut tree, _root, leaves) = weighted(&["a", "b", "c"], vec![5, 2, 2]);
    let mut counts = [0usize; 3];
    for _ in 0..10000 {
        let selected = dist_tick(&mut tree);
        assert_eq!(selected.0.len(), 1);
        let pos = leaves.iter().position(|l| *l == selected.0[0]).unwrap();
        counts[pos] += 1;
    }
    // `a` carries 5 of 9 total weight, about 55.6%; allow 55-65% as a
    // statistical band.
    assert!(counts[0] >= 5500 && counts[0] <= 6500, "a selected {} times", counts[0]);
    assert!(counts[1] > 0 && counts[2] > 0);
}

#[test]
fn zero_weight_child_is_never_selected() {
    let (mut tree, _root, leaves) = weighted(&["never", "always"], vec![0, 7]);
    for _ in 0..200 {
        let selected = dist_tick(&mut tree);
        assert_eq!(selected.0, vec![leaves[1]]);
    }
}

#[test]
fn malformed_weights_are_refused() {
    let mut tree: FragmentTree<String> = FragmentTree::new();
    let root = tree.create(None).unwrap();
    assert!(tree.set_root(root));
    let a = tree.create(Some(root)).unwrap();
    assert!(tree.set_leaf(a, "a".to_string()));
    let b = tree.create(Some(root)).unwrap();
    assert!(tree.set_leaf(b, "b".to_string()));

    // Wrong arity, all-zero, and overflowing weight lists are all
    // configuration errors: the facet is refused...
    assert!(!tree.set_distribution(root, vec![1, 2, 3]));
    assert!(!tree.set_distribution(root, vec![0, 0]));
    assert!(!tree.set_distribution(root, vec![u64::MAX, u64::MAX]));
    // ...and the node keeps abstaining: its children never fire.
    let selected = dist_tick(&mut tree);
    assert!(selected.0.is_empty());
}

#[test]
fn childless_choice_is_refused() {
    let mut tree: FragmentTree<String> = FragmentTree::new();
    let root = tree.create(None).unwrap();
    assert!(tree.set_root(root));
    assert!(!tree.set_choice(root));
}

#[test]
fn uniform_choice_reaches_every_child() {
    let mut tree: FragmentTree<String> = FragmentTree::new();
    let root = tree.create(None).unwrap();
    assert!(tree.set_root(root));
    assert!(tree.set_always(root));
    let mut leaves = Vec::new();
    for name in ["a", "b", "c"] {
        let leaf = tree.create(Some(root)).unwrap();
        assert!(tree.set_leaf(leaf, name.to_string()));
        leaves.push(leaf);
    }
    assert!(tree.set_choice(root));

    let mut seen = [false; 3];
    for _ in 0..300 {
        let selected = dist_tick(&mut tree);
        assert_eq!(selected.0.len(), 1);
        let pos = leaves.iter().position(|l| *l == selected.0[0]).unwrap();
        seen[pos] = true;
    }
    assert!(seen[0] && seen[1] && seen[2]);
}

#[test]
fn choice_is_stable_while_activation_in_flight() {
    let (mut tree, root, leaves) = weighted(&["a", "b", "c"], vec![1, 1, 1]);
    let selected = dist_tick(&mut tree);
    let chosen = selected.0[0];
    let (id, _) = tree.begin(chosen);

    // While the activation is in flight, re-evaluation reuses the
    // cached choice instead of resampling.
    for _ in 0..50 {
        dist_tick(&mut tree);
        let pos = leaves.iter().position(|l| *l == chosen).unwrap();
        assert_eq!(tree.nodes[root.0].dist_index, pos);
    }
    tree.end(id);
}

#[test]
fn select_and_distribution_caches_are_independent() {
    // A container carrying both index facets keeps one cache per
    // facet: an injected select index never clobbers the sampled
    // distribution choice, and the other way round.
    let mut tree: FragmentTree<String> = FragmentTree::new();
    let root = tree.create(None).unwrap();
    assert!(tree.set_root(root));
    assert!(tree.set_always(root));
    let a = tree.create(Some(root)).unwrap();
    assert!(tree.set_leaf(a, "a".to_string()));
    let b = tree.create(Some(root)).unwrap();
    assert!(tree.set_leaf(b, "b".to_string()));
    assert!(tree.set_select(root));
    // Only the second child is ever samplable.
    assert!(tree.set_distribution(root, vec![0, 1]));

    tree.clear_evals();
    tree.evaluate_always();
    tree.update_distribution_items();
    assert_eq!(tree.nodes[root.0].dist_index, 1);

    assert!(tree.update_select_item(root, 0));
    assert_eq!(tree.nodes[root.0].select_index, 0);
    assert_eq!(tree.nodes[root.0].dist_index, 1);
}

#[test]
fn select_uses_injected_index_and_caches_it() {
    let mut tree: FragmentTree<String> = FragmentTree::new();
    let root = tree.create(None).unwrap();
    assert!(tree.set_root(root));
    assert!(tree.set_always(root));
    let mut leaves = Vec::new();
    for name in ["one", "two", "three"] {
        let leaf = tree.create(Some(root)).unwrap();
        assert!(tree.set_leaf(leaf, name.to_string()));
        leaves.push(leaf);
    }
    assert!(tree.set_select(root));

    // The external index source drives which child fires.
    for (idx, leaf) in leaves.iter().enumerate() {
        tree.clear_evals();
        tree.evaluate_always();
        assert!(tree.update_select_item(root, idx));
        let selected = tree.select_fragments();
        assert_eq!(selected.0, vec![*leaf]);
    }

    // An out-of-range index selects nothing.
    tree.clear_evals();
    tree.evaluate_always();
    assert!(tree.update_select_item(root, 17));
    assert!(tree.select_fragments().0.is_empty());

    // While an activation is in flight the cached index wins over a
    // fresh one.
    tree.clear_evals();
    tree.evaluate_always();
    assert!(tree.update_select_item(root, 0));
    let (id, _) = tree.begin(leaves[0]);
    tree.clear_evals();
    tree.evaluate_always();
    assert!(tree.update_select_item(root, 2));
    assert_eq!(tree.nodes[root.0].select_index, 0);
    tree.end(id);
}
