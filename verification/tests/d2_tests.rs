use depgraph::d2::{sanitize, to_d2};
use depgraph::graph::DependencyGraph;

#[test]
fn sanitize_keeps_identifier_characters() {
    assert_eq!(sanitize("abcXYZ_09"), "abcXYZ_09");
}

#[test]
fn sanitize_replaces_other_characters() {
    assert_eq!(sanitize("serde-json"), "serde_json");
    assert_eq!(sanitize("a.b/c d"), "a_b_c_d");
}

#[test]
fn sanitize_of_empty_name_is_underscore() {
    assert_eq!(sanitize(""), "_");
    assert_eq!(sanitize("!!"), "__");
}

#[test]
fn export_renders_header_nodes_and_edges() {
    let mut g = DependencyGraph::new();
    g.add_edge("A", "B");
    g.add_edge("A", "C");
    g.add_edge("B", "C");
    let out = to_d2(&g, false);
    assert_eq!(
        out,
        "direction: right\n\nA: A\nB: B\nC: C\n\nA -> B\nA -> C\nB -> C\n"
    );
}

#[test]
fn export_swaps_edges_in_reverse() {
    let mut g = DependencyGraph::new();
    g.add_edge("A", "B");
    let out = to_d2(&g, true);
    assert_eq!(out, "direction: right\n\nA: A\nB: B\n\nB -> A\n");
}

#[test]
fn export_writes_one_line_per_unique_edge() {
    let mut g = DependencyGraph::new();
    g.add_edge("A", "B");
    g.add_edge("A", "B");
    g.add_edge("A", "B");
    let out = to_d2(&g, false);
    let hits = out.lines().filter(|l| *l == "A -> B").count();
    assert_eq!(hits, 1);
}

#[test]
fn export_declares_isolated_nodes() {
    let mut g = DependencyGraph::new();
    g.ensure_node("lonely");
    let out = to_d2(&g, false);
    assert_eq!(out, "direction: right\n\nlonely: lonely\n\n");
}

#[test]
fn export_sanitizes_identifiers_but_keeps_display_names() {
    let mut g = DependencyGraph::new();
    g.add_edge("a-b", "c.d");
    let out = to_d2(&g, false);
    assert_eq!(
        out,
        "direction: right\n\na_b: a-b\nc_d: c.d\n\na_b -> c_d\n"
    );
}
