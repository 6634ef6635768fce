use sequence_engine::evaluate::Evaluation;
use sequence_engine::events::EndHookKind;
use sequence_engine::select::SelectedFragments;
use sequence_engine::tree::{FragmentId, FragmentTree};

/// One evaluation-plus-selection pass, as the host schedules it.
fn tick(tree: &mut FragmentTree<String>) -> SelectedFragments {
    tree.clear_evals();
    tree.update_sequence_items();
    tree.evaluate_limits();
    tree.evaluate_always();
    tree.update_distribution_items();
    tree.select_fragments()
}

/// A bare sequence container as root over three leaves: no facet ever
/// votes on the container itself, so its vote stays abstaining and the
/// descent must carry on through it.
fn abc_sequence(limit: Option<usize>) -> (FragmentTree<String>, FragmentId, Vec<FragmentId>) {
    let mut tree: FragmentTree<String> = FragmentTree::new();
    let root = tree.create(None).unwrap();
    assert!(tree.set_root(root));
    assert!(tree.set_sequence(root));
    if let Some(n) = limit {
        assert!(tree.set_limit(root, n));
    }
    let mut leaves = Vec::new();
    for name in ["A", "B", "C"] {
        let leaf = tree.create(Some(root)).unwrap();
        assert!(tree.set_leaf(leaf, name.to_string()));
        leaves.push(leaf);
    }
    (tree, root, leaves)
}

#[test]
fn sequence_selects_in_strict_order() {
    let (mut tree, _root, leaves) = abc_sequence(Some(1));

    // Tick 1 selects A.
    let selected = tick(&mut tree);
    assert_eq!(selected.0, vec![leaves[0]]);
    assert_eq!(tree.payload_of(leaves[0]).unwrap().as_str(), "A");
    let (id_a, _) = tree.begin(leaves[0]);

    // While A is in flight, nothing else becomes eligible.
    let mid = tick(&mut tree);
    assert!(mid.0.is_empty());

    tree.end(id_a);

    // Tick 2 selects B, then C, in index order.
    let selected = tick(&mut tree);
    assert_eq!(selected.0, vec![leaves[1]]);
    let (id_b, _) = tree.begin(leaves[1]);
    tree.end(id_b);

    let selected = tick(&mut tree);
    assert_eq!(selected.0, vec![leaves[2]]);
    let (id_c, _) = tree.begin(leaves[2]);
    tree.end(id_c);

    // After the last child ends, the outer limit of one cycle is
    // exhausted: tick 4 selects nothing.
    let selected = tick(&mut tree);
    assert!(selected.0.is_empty());
}

#[test]
fn sequence_counters_propagate_to_container() {
    let (mut tree, root, leaves) = abc_sequence(None);

    tick(&mut tree);
    let (id_a, _) = tree.begin(leaves[0]);
    // The first child's start counts a new cycle on the container.
    assert_eq!(tree.nodes[root.0].state.triggered, 1);
    assert_eq!(tree.nodes[root.0].state.completed, 0);
    tree.end(id_a);
    // A non-last child's end is only a visit.
    assert_eq!(tree.nodes[root.0].state.completed, 0);

    tick(&mut tree);
    let (id_b, _) = tree.begin(leaves[1]);
    tree.end(id_b);
    tick(&mut tree);
    let (id_c, _) = tree.begin(leaves[2]);
    tree.end(id_c);
    // The last child's end completes the container's cycle.
    assert_eq!(tree.nodes[root.0].state.completed, 1);

    // Without an outer limit the cycle restarts at A.
    let selected = tick(&mut tree);
    assert_eq!(selected.0, vec![leaves[0]]);
}

#[test]
fn single_true_leaf_is_alone_selected() {
    let mut tree: FragmentTree<String> = FragmentTree::new();
    let root = tree.create(None).unwrap();
    assert!(tree.set_root(root));
    assert!(tree.set_always(root));
    let a = tree.create(Some(root)).unwrap();
    assert!(tree.set_leaf(a, "A".to_string()));
    assert!(tree.set_always(a));
    let b = tree.create(Some(root)).unwrap();
    assert!(tree.set_leaf(b, "B".to_string()));
    // A definite veto on B.
    assert!(tree.set_limit(b, 0));

    let selected = tick(&mut tree);
    assert_eq!(selected.0, vec![a]);
}

#[test]
fn tied_leaves_all_fire_and_lower_specificity_wins() {
    let mut tree: FragmentTree<String> = FragmentTree::new();
    let root = tree.create(None).unwrap();
    assert!(tree.set_root(root));
    assert!(tree.set_always(root));
    let a = tree.create(Some(root)).unwrap();
    assert!(tree.set_leaf(a, "A".to_string()));
    assert!(tree.set_always(a));
    let b = tree.create(Some(root)).unwrap();
    assert!(tree.set_leaf(b, "B".to_string()));
    assert!(tree.set_always(b));

    // Equal specificity: both tied leaves fire.
    let selected = tick(&mut tree);
    assert_eq!(selected.0, vec![a, b]);

    // An extra vote on A makes its path more specific (higher count),
    // so the less qualified B and C win.
    let c = tree.create(Some(root)).unwrap();
    assert!(tree.set_leaf(c, "C".to_string()));
    assert!(tree.set_always(c));
    tree.clear_evals();
    tree.evaluate_always();
    assert!(tree.apply_evaluation(a, Evaluation { result: Some(true), count: 1 }));
    let t2 = tree.select_fragments();
    assert_eq!(t2.0, vec![b, c]);
}

#[test]
fn or_falls_back_after_primary_exhausts() {
    // A sequence root whose sole child is a plain group holding X
    // (limited to one run) and its fallback Y. No facet ever votes on
    // the root or the group themselves.
    let mut tree: FragmentTree<String> = FragmentTree::new();
    let root = tree.create(None).unwrap();
    assert!(tree.set_root(root));
    assert!(tree.set_sequence(root));
    let group = tree.create(Some(root)).unwrap();
    let x = tree.create(Some(group)).unwrap();
    assert!(tree.set_leaf(x, "X".to_string()));
    assert!(tree.set_once(x));
    let y = tree.create(Some(group)).unwrap();
    assert!(tree.set_leaf(y, "Y".to_string()));
    assert!(tree.set_or_item(y));

    // First activation selects X: it inherits the sequence's true vote
    // on the group, and Y is forced false by X's resolved-true group.
    let selected = tick(&mut tree);
    assert_eq!(selected.0, vec![x]);
    let (id_x, _) = tree.begin(x);
    tree.end(id_x);

    // After X's single completion its limit resolves the first group
    // to false, so every subsequent tick selects the fallback Y.
    for _ in 0..3 {
        let selected = tick(&mut tree);
        assert_eq!(selected.0, vec![y]);
        let (id_y, _) = tree.begin(y);
        tree.end(id_y);
    }
}

#[test]
fn abstaining_root_descends_to_true_leaf() {
    // A bare root with no vote of its own does not hide its subtree:
    // the abstain carries down and the leaf's own true vote fires.
    let mut tree: FragmentTree<String> = FragmentTree::new();
    let root = tree.create(None).unwrap();
    assert!(tree.set_root(root));
    let leaf = tree.create(Some(root)).unwrap();
    assert!(tree.set_leaf(leaf, "L".to_string()));
    assert!(tree.set_always(leaf));

    let selected = tick(&mut tree);
    assert_eq!(selected.0, vec![leaf]);

    // A no-opinion leaf, by contrast, never fires.
    let mut bare: FragmentTree<String> = FragmentTree::new();
    let r2 = bare.create(None).unwrap();
    assert!(bare.set_root(r2));
    let l2 = bare.create(Some(r2)).unwrap();
    assert!(bare.set_leaf(l2, "M".to_string()));
    let selected = {
        bare.clear_evals();
        bare.select_fragments()
    };
    assert!(selected.0.is_empty());
}

#[test]
fn begin_and_end_balance_active_events() {
    let (mut tree, root, leaves) = abc_sequence(None);
    tick(&mut tree);
    let (id_a, _) = tree.begin(leaves[0]);

    assert!(tree.nodes[leaves[0].0].state.active);
    assert!(tree.nodes[leaves[0].0].state.active_events.contains(id_a.event));
    assert!(tree.nodes[root.0].state.active);
    assert!(tree.nodes[root.0].state.active_events.contains(id_a.event));

    let hooks = tree.end(id_a);
    assert!(hooks.is_empty());
    // After the terminal signal the ID is gone along the whole path.
    assert!(!tree.nodes[leaves[0].0].state.active_events.contains(id_a.event));
    assert!(!tree.nodes[root.0].state.active_events.contains(id_a.event));
    assert!(!tree.nodes[leaves[0].0].state.active);
    assert!(!tree.nodes[root.0].state.active);
    assert_eq!(tree.nodes[leaves[0].0].state.completed, 1);
}

#[test]
fn duplicate_end_is_a_tolerated_noop() {
    let (mut tree, root, leaves) = abc_sequence(None);
    tick(&mut tree);
    let (id_a, _) = tree.begin(leaves[0]);
    tree.end(id_a);
    let completed = tree.nodes[leaves[0].0].state.completed;
    let root_state = tree.nodes[root.0].state.clone();

    // The second terminal signal for the same activation changes
    // nothing and fires no hooks.
    let hooks = tree.end(id_a);
    assert!(hooks.is_empty());
    assert_eq!(tree.nodes[leaves[0].0].state.completed, completed);
    assert_eq!(tree.nodes[root.0].state, root_state);
}

#[test]
fn interrupt_does_not_count_completion() {
    let (mut tree, root, leaves) = abc_sequence(None);
    tick(&mut tree);
    let (id_a, _) = tree.begin(leaves[0]);
    tree.interrupt(id_a);

    assert_eq!(tree.nodes[leaves[0].0].state.triggered, 1);
    assert_eq!(tree.nodes[leaves[0].0].state.completed, 0);
    assert!(!tree.nodes[leaves[0].0].state.active);
    assert!(!tree.nodes[root.0].state.active_events.contains(id_a.event));
    assert_eq!(tree.nodes[root.0].state.completed, 0);
}

#[test]
fn destroyed_node_stops_propagation_gracefully() {
    let (mut tree, root, leaves) = abc_sequence(None);
    tick(&mut tree);
    let (id_a, _) = tree.begin(leaves[0]);

    // The external owner discards the container mid-flight.
    tree.destroy(root);
    // The terminal signal still settles the leaf and dies out quietly
    // at the dead container.
    tree.end(id_a);
    assert_eq!(tree.nodes[leaves[0].0].state.completed, 1);
    assert!(!tree.nodes[leaves[0].0].state.active);

    // A dead subtree is never selected again.
    let selected = tick(&mut tree);
    assert!(selected.0.is_empty());
}

#[test]
fn childless_container_is_never_selected() {
    let mut tree: FragmentTree<String> = FragmentTree::new();
    let root = tree.create(None).unwrap();
    assert!(tree.set_root(root));
    assert!(tree.set_sequence(root));
    assert!(tree.set_always(root));

    // Vacuously satisfied, but a container is no leaf: nothing fires.
    let selected = tick(&mut tree);
    assert!(selected.0.is_empty());
}

#[test]
fn custom_vote_vetoes_a_leaf() {
    let (mut tree, _root, leaves) = abc_sequence(None);
    tree.clear_evals();
    tree.update_sequence_items();
    tree.evaluate_limits();
    tree.evaluate_always();
    // An externally computed predicate vetoes the first leaf.
    assert!(tree.apply_evaluation(leaves[0], Evaluation { result: Some(false), count: 1 }));
    let selected = tree.select_fragments();
    assert!(selected.0.is_empty());
}

#[test]
fn start_hooks_fire_bottom_up_and_visit_hooks_top_down() {
    let (mut tree, root, leaves) = abc_sequence(None);
    assert!(tree.insert_begin_up(leaves[0], 10));
    assert!(tree.insert_begin_up(root, 20));
    assert!(tree.insert_begin_down(leaves[0], 30));
    assert!(tree.insert_begin_down(root, 40));

    tick(&mut tree);
    let (_, hooks) = tree.begin(leaves[0]);
    let order: Vec<u64> = hooks.iter().map(|h| h.tag).collect();
    // Up hooks leaf-to-root, then down hooks root-to-leaf.
    assert_eq!(order, vec![10, 20, 40, 30]);
}

#[test]
fn end_hooks_fire_in_order_with_interrupt_hooks() {
    let (mut tree, root, leaves) = abc_sequence(None);
    assert!(tree.insert_end_up(leaves[0], 1));
    assert!(tree.insert_end_up(root, 2));
    assert!(tree.insert_end_down(root, 3));
    assert!(tree.insert_end_down(leaves[0], 4));
    assert!(tree.insert_interrupt(leaves[0], 5));

    tick(&mut tree);
    let (id_a, _) = tree.begin(leaves[0]);
    let hooks = tree.interrupt(id_a);
    let order: Vec<(u64, EndHookKind)> = hooks.iter().map(|h| (h.tag, h.kind)).collect();
    // End-up then interrupt hooks at the leaf, the container's end-up,
    // then the down hooks root-to-leaf.
    assert_eq!(
        order,
        vec![
            (1, EndHookKind::Up),
            (5, EndHookKind::Interrupt),
            (2, EndHookKind::Up),
            (3, EndHookKind::Down),
            (4, EndHookKind::Down),
        ]
    );
}
