use depgraph::graph::DependencyGraph;

fn scenario_store() -> DependencyGraph {
    let mut g = DependencyGraph::new();
    g.add_edge("A", "B");
    g.add_edge("A", "C");
    g.add_edge("B", "C");
    g
}

#[test]
fn forward_traversal_marks_shared_subtree_visited() {
    let g = scenario_store();
    let out = g.print_tree("A", "");
    assert_eq!(out, "A\n  B\n    C\n  C (visited)\n");
}

#[test]
fn forward_traversal_marks_cycle() {
    let mut g = DependencyGraph::new();
    g.add_edge("A", "B");
    g.add_edge("B", "A");
    let out = g.print_tree("A", "");
    assert_eq!(out, "A\n  B\n    A (cycle)\n");
}

#[test]
fn reverse_traversal_lists_dependents() {
    // the same store as the shared-subtree scenario, entered in the
    // order that puts B ahead of A in the derived index
    let mut g = DependencyGraph::new();
    g.add_edge("B", "C");
    g.add_edge("A", "B");
    g.add_edge("A", "C");
    let out = g.print_reverse_tree("C", "");
    assert_eq!(out, "C\n  B\n    A\n  A (visited)\n");
}

#[test]
fn exclusion_filter_prunes_subtree() {
    let g = scenario_store();
    let out = g.print_tree("A", "C");
    assert_eq!(out, "A\n  B\n");
}

#[test]
fn exclusion_filter_is_trimmed() {
    let g = scenario_store();
    let out = g.print_tree("A", "  C ");
    assert_eq!(out, "A\n  B\n");
}

#[test]
fn exclusion_filter_can_prune_the_root() {
    let g = scenario_store();
    let out = g.print_tree("A", "A");
    assert_eq!(out, "");
}

#[test]
fn whitespace_filter_excludes_nothing() {
    let g = scenario_store();
    let out = g.print_tree("A", "   ");
    assert_eq!(out, "A\n  B\n    C\n  C (visited)\n");
}

#[test]
fn missing_root_still_prints_its_label() {
    let g = DependencyGraph::new();
    let out = g.print_tree("X", "");
    assert_eq!(out, "X\n");
}

#[test]
fn self_loop_prints_cycle() {
    let mut g = DependencyGraph::new();
    g.add_edge("A", "A");
    let out = g.print_tree("A", "");
    assert_eq!(out, "A\n  A (cycle)\n");
}

#[test]
fn reverse_traversal_equals_forward_over_reversed_graph() {
    let mut g = DependencyGraph::new();
    g.add_edge("A", "B");
    g.add_edge("A", "C");
    g.add_edge("B", "C");
    g.add_edge("C", "A");
    let rev = g.build_reverse_index();
    for target in ["A", "B", "C", "missing"] {
        assert_eq!(g.print_reverse_tree(target, ""), rev.print_tree(target, ""));
        assert_eq!(g.print_reverse_tree(target, "B"), rev.print_tree(target, "B"));
    }
}

#[test]
fn reverse_traversal_of_leaf_prints_only_target() {
    let g = scenario_store();
    let out = g.print_reverse_tree("A", "");
    assert_eq!(out, "A\n");
}
