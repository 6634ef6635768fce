use sequence_engine::select::SelectedFragments;
use sequence_engine::tree::{FragmentId, FragmentTree};

fn tick(tree: &mut FragmentTree<String>) -> SelectedFragments {
    tree.clear_evals();
    tree.update_sequence_items();
    tree.evaluate_limits();
    tree.evaluate_always();
    tree.select_fragments()
}

/// A sequence container over two leaves, root and always-true.
fn two_leaf_sequence() -> (FragmentTree<String>, FragmentId, Vec<FragmentId>) {
    let mut tree: FragmentTree<String> = FragmentTree::new();
    let root = tree.create(None).unwrap();
    assert!(tree.set_root(root));
    assert!(tree.set_sequence(root));
    assert!(tree.set_always(root));
    let mut leaves = Vec::new();
    for name in ["A", "B"] {
        let leaf = tree.create(Some(root)).unwrap();
        assert!(tree.set_leaf(leaf, name.to_string()));
        leaves.push(leaf);
    }
    (tree, root, leaves)
}

#[test]
fn save_restore_round_trip_reproduces_counters() {
    let (mut tree, root, leaves) = two_leaf_sequence();

    // Run one full cycle so the counters carry real values.
    tick(&mut tree);
    let (id_a, _) = tree.begin(leaves[0]);
    tree.end(id_a);
    tick(&mut tree);
    let (id_b, _) = tree.begin(leaves[1]);
    tree.end(id_b);

    let snapshot = tree.get_saved_state(root).unwrap();

    // Restore into an identically shaped, freshly built subtree.
    let (mut other, other_root, other_leaves) = two_leaf_sequence();
    let mismatches = other.apply_saved_state(other_root, &snapshot);
    assert_eq!(mismatches, 0);

    assert_eq!(other.nodes[other_root.0].state.triggered, tree.nodes[root.0].state.triggered);
    assert_eq!(other.nodes[other_root.0].state.completed, tree.nodes[root.0].state.completed);
    for (a, b) in leaves.iter().zip(other_leaves.iter()) {
        assert_eq!(other.nodes[b.0].state.triggered, tree.nodes[a.0].state.triggered);
        assert_eq!(other.nodes[b.0].state.completed, tree.nodes[a.0].state.completed);
    }

    // The restored tree resumes where the saved one left off: its
    // cycle is complete, so the next tick starts over at A.
    let selected = tick(&mut other);
    assert_eq!(selected.0, vec![other_leaves[0]]);
}

#[test]
fn restore_into_mismatched_shape_applies_only_the_root() {
    let (mut tree, root, leaves) = two_leaf_sequence();
    tick(&mut tree);
    let (id_a, _) = tree.begin(leaves[0]);
    tree.end(id_a);
    let snapshot = tree.get_saved_state(root).unwrap();

    // The other tree has three children where the snapshot saved two:
    // shape drift is reported and the children are left alone.
    let mut other: FragmentTree<String> = FragmentTree::new();
    let other_root = other.create(None).unwrap();
    assert!(other.set_root(other_root));
    assert!(other.set_sequence(other_root));
    let mut other_leaves = Vec::new();
    for name in ["A", "B", "C"] {
        let leaf = other.create(Some(other_root)).unwrap();
        assert!(other.set_leaf(leaf, name.to_string()));
        other_leaves.push(leaf);
    }

    let mismatches = other.apply_saved_state(other_root, &snapshot);
    assert_eq!(mismatches, 1);
    // The root's own record was applied...
    assert_eq!(other.nodes[other_root.0].state.triggered, 1);
    // ...but the drifting children kept their records.
    for leaf in other_leaves.iter() {
        assert_eq!(other.nodes[leaf.0].state.triggered, 0);
    }
}

#[test]
fn restore_to_missing_node_is_a_noop() {
    let (mut tree, root, _leaves) = two_leaf_sequence();
    let snapshot = tree.get_saved_state(root).unwrap();
    let missing = FragmentId(99);
    assert_eq!(tree.apply_saved_state(missing, &snapshot), 0);
    assert!(tree.get_saved_state(missing).is_none());
}

#[test]
fn snapshot_sees_through_to_grandchildren() {
    // A nested container: root -> inner -> leaf.
    let mut tree: FragmentTree<String> = FragmentTree::new();
    let root = tree.create(None).unwrap();
    assert!(tree.set_root(root));
    assert!(tree.set_always(root));
    let inner = tree.create(Some(root)).unwrap();
    assert!(tree.set_sequence(inner));
    let leaf = tree.create(Some(inner)).unwrap();
    assert!(tree.set_leaf(leaf, "L".to_string()));

    tree.clear_evals();
    tree.update_sequence_items();
    tree.evaluate_always();
    let selected = tree.select_fragments();
    assert_eq!(selected.0, vec![leaf]);
    let (id, _) = tree.begin(leaf);
    tree.end(id);

    let snapshot = tree.get_saved_state(root).unwrap();
    assert_eq!(snapshot.children.len(), 1);
    assert_eq!(snapshot.children[0].children.len(), 1);
    assert_eq!(snapshot.children[0].children[0].state.completed, 1);
}
