use depgraph::graph::DependencyGraph;

fn deps_of(g: &DependencyGraph, name: &str) -> Vec<String> {
    for node in &g.nodes {
        if node.name == name {
            return node.dependencies.clone();
        }
    }
    panic!("no node named {}", name);
}

#[test]
fn new_graph_is_empty() {
    let g = DependencyGraph::new();
    assert_eq!(g.nodes.len(), 0);
}

#[test]
fn ensure_node_inserts_once() {
    let mut g = DependencyGraph::new();
    g.ensure_node("A");
    g.ensure_node("A");
    assert_eq!(g.nodes.len(), 1);
    assert_eq!(g.nodes[0].name, "A");
    assert_eq!(g.nodes[0].dependencies.len(), 0);
}

#[test]
fn add_edge_creates_both_endpoints() {
    let mut g = DependencyGraph::new();
    g.add_edge("A", "B");
    assert_eq!(g.nodes.len(), 2);
    assert_eq!(deps_of(&g, "A"), vec!["B".to_string()]);
    assert_eq!(deps_of(&g, "B"), Vec::<String>::new());
}

#[test]
fn add_edge_twice_collapses() {
    let mut g = DependencyGraph::new();
    g.add_edge("A", "B");
    let once = deps_of(&g, "A");
    g.add_edge("A", "B");
    assert_eq!(deps_of(&g, "A"), once);
    assert_eq!(deps_of(&g, "A"), vec!["B".to_string()]);
    assert_eq!(g.nodes.len(), 2);
}

#[test]
fn self_edge_is_permitted() {
    let mut g = DependencyGraph::new();
    g.add_edge("A", "A");
    assert_eq!(g.nodes.len(), 1);
    assert_eq!(deps_of(&g, "A"), vec!["A".to_string()]);
}

#[test]
fn add_package_replaces_the_whole_list() {
    let mut g = DependencyGraph::new();
    g.add_edge("A", "B");
    g.add_package("A", &vec!["C".to_string(), "D".to_string()]);
    assert_eq!(deps_of(&g, "A"), vec!["C".to_string(), "D".to_string()]);
    assert!(g.nodes.iter().any(|n| n.name == "B"));
    assert!(g.nodes.iter().any(|n| n.name == "D"));
}

#[test]
fn add_package_collapses_duplicates_in_its_list() {
    let mut g = DependencyGraph::new();
    g.add_package("A", &vec!["B".to_string(), "B".to_string()]);
    assert_eq!(deps_of(&g, "A"), vec!["B".to_string()]);
}

#[test]
fn load_from_map_builds_full_graph() {
    let mut g = DependencyGraph::new();
    let map = vec![
        ("A".to_string(), vec!["B".to_string(), "C".to_string()]),
        ("B".to_string(), vec!["C".to_string()]),
        ("C".to_string(), Vec::new()),
    ];
    g.load_from_map(&map);
    assert_eq!(g.nodes.len(), 3);
    assert_eq!(deps_of(&g, "A"), vec!["B".to_string(), "C".to_string()]);
    assert_eq!(deps_of(&g, "B"), vec!["C".to_string()]);
    assert_eq!(deps_of(&g, "C"), Vec::<String>::new());
}

#[test]
fn load_from_map_collapses_duplicate_edges() {
    let mut g = DependencyGraph::new();
    let map = vec![("A".to_string(), vec!["B".to_string(), "B".to_string()])];
    g.load_from_map(&map);
    assert_eq!(deps_of(&g, "A"), vec!["B".to_string()]);
}

#[test]
fn reverse_index_swaps_every_edge() {
    let mut g = DependencyGraph::new();
    g.add_edge("A", "B");
    g.add_edge("A", "C");
    g.add_edge("B", "C");
    let rev = g.build_reverse_index();
    assert_eq!(deps_of(&rev, "B"), vec!["A".to_string()]);
    assert_eq!(deps_of(&rev, "C"), vec!["A".to_string(), "B".to_string()]);
    assert_eq!(deps_of(&rev, "A"), Vec::<String>::new());
}

#[test]
fn reverse_index_of_isolated_nodes_is_empty() {
    let mut g = DependencyGraph::new();
    g.ensure_node("A");
    g.ensure_node("B");
    let rev = g.build_reverse_index();
    assert_eq!(rev.nodes.len(), 0);
}
