use depgraph::config::Config;
use depgraph::dep::{DepKind, ResolvedDep};
use depgraph::graph::{DepGraph, Ed};

fn names(dg: &DepGraph) -> Vec<String> {
    dg.nodes.iter().map(|d| d.name.clone()).collect()
}

#[test]
fn new_graph_is_empty() {
    let cfg = Config::new("b", "d", "o");
    let dg = DepGraph::new(&cfg);
    assert!(dg.nodes.is_empty());
    assert!(dg.edges.is_empty());
    assert_eq!(dg.cfg.build_lines, "b");
    assert_eq!(dg.cfg.dev_lines, "d");
    assert_eq!(dg.cfg.optional_lines, "o");
}

#[test]
fn new_dependency_is_normal() {
    let d = ResolvedDep::new("serde".to_string(), "1.0.0".to_string());
    assert_eq!(d.name, "serde");
    assert_eq!(d.ver, "1.0.0");
    assert_eq!(d.kind(), DepKind::Normal);
    assert!(d.is(&"serde".to_string(), &"1.0.0".to_string()));
    assert!(!d.is(&"serde".to_string(), &"1.0.1".to_string()));
    assert!(!d.is(&"serde_json".to_string(), &"1.0.0".to_string()));
}

#[test]
fn find_on_empty_graph_finds_nothing() {
    let cfg = Config::new("", "", "");
    let dg = DepGraph::new(&cfg);
    assert_eq!(dg.find("a", "1"), None);
    assert!(dg.get(0).is_none());
}

#[test]
fn find_returns_first_matching_slot() {
    let cfg = Config::new("", "", "");
    let mut dg = DepGraph::new(&cfg);
    dg.nodes.push(ResolvedDep::new("a".to_string(), "1".to_string()));
    dg.nodes.push(ResolvedDep::new("b".to_string(), "1".to_string()));
    dg.nodes.push(ResolvedDep::new("b".to_string(), "2".to_string()));
    dg.nodes.push(ResolvedDep::new("b".to_string(), "1".to_string()));
    assert_eq!(dg.find("a", "1"), Some(0));
    assert_eq!(dg.find("b", "1"), Some(1));
    assert_eq!(dg.find("b", "2"), Some(2));
    assert_eq!(dg.find("b", "3"), None);
    assert_eq!(dg.find("c", "1"), None);
    assert_eq!(dg.find("", ""), None);
}

#[test]
fn find_ignores_the_kind() {
    let cfg = Config::new("", "", "");
    let mut dg = DepGraph::new(&cfg);
    let a = dg.find_or_add("a", "1");
    dg.nodes[a].kind = DepKind::Dev;
    assert_eq!(dg.find("a", "1"), Some(0));
    assert_eq!(dg.find_or_add("a", "1"), 0);
    assert_eq!(dg.nodes.len(), 1);
    assert_eq!(dg.nodes[0].kind, DepKind::Dev);
}

#[test]
fn find_or_add_is_idempotent() {
    let cfg = Config::new("", "", "");
    let mut dg = DepGraph::new(&cfg);
    let first = dg.find_or_add("a", "1.0");
    let second = dg.find_or_add("a", "1.0");
    assert_eq!(first, 0);
    assert_eq!(second, 0);
    assert_eq!(dg.nodes.len(), 1);
    let other = dg.find_or_add("a", "2.0");
    assert_eq!(other, 1);
    assert_eq!(dg.find_or_add("a", "2.0"), 1);
    assert_eq!(dg.find_or_add("a", "1.0"), 0);
    assert_eq!(dg.nodes.len(), 2);
    assert_eq!(dg.nodes[1], ResolvedDep::new("a".to_string(), "2.0".to_string()));
    assert!(dg.edges.is_empty());
}

#[test]
fn get_returns_the_node_at_a_slot() {
    let cfg = Config::new("", "", "");
    let mut dg = DepGraph::new(&cfg);
    dg.find_or_add("a", "1");
    dg.find_or_add("b", "2");
    assert_eq!(dg.get(0).map(|d| d.name.as_str()), Some("a"));
    assert_eq!(dg.get(1).map(|d| d.ver.as_str()), Some("2"));
    assert!(dg.get(2).is_none());
    assert!(dg.get(usize::MAX).is_none());
}

#[test]
fn add_child_appends_node_and_edge() {
    let cfg = Config::new("", "", "");
    let mut dg = DepGraph::new(&cfg);
    let root = dg.find_or_add("root", "0.1");
    let a = dg.add_child(root, "a", "1");
    let b = dg.add_child(root, "b", "1");
    let a_again = dg.add_child(b, "a", "1");
    assert_eq!((root, a, b, a_again), (0, 1, 2, 1));
    assert_eq!(names(&dg), vec!["root", "a", "b"]);
    assert_eq!(dg.edges, vec![Ed(0, 1), Ed(0, 2), Ed(2, 1)]);
}

#[test]
fn add_child_keeps_duplicate_edges() {
    let cfg = Config::new("", "", "");
    let mut dg = DepGraph::new(&cfg);
    let root = dg.find_or_add("root", "0.1");
    dg.add_child(root, "a", "1");
    dg.add_child(root, "a", "1");
    assert_eq!(dg.nodes.len(), 2);
    assert_eq!(dg.edges, vec![Ed(0, 1), Ed(0, 1)]);
}

#[test]
fn add_child_can_point_at_its_parent() {
    let cfg = Config::new("", "", "");
    let mut dg = DepGraph::new(&cfg);
    let a = dg.find_or_add("a", "1");
    let child = dg.add_child(a, "a", "1");
    assert_eq!(child, a);
    assert_eq!(dg.edges, vec![Ed(0, 0)]);
}

#[test]
fn set_root_fails_on_unknown_package() {
    let cfg = Config::new("", "", "");
    let mut dg = DepGraph::new(&cfg);
    let a = dg.find_or_add("a", "1");
    dg.add_child(a, "b", "1");
    assert!(!dg.set_root("c", "1"));
    assert!(!dg.set_root("b", "2"));
    assert_eq!(names(&dg), vec!["a", "b"]);
    assert_eq!(dg.edges, vec![Ed(0, 1)]);
}

#[test]
fn set_root_at_slot_zero_changes_nothing() {
    let cfg = Config::new("", "", "");
    let mut dg = DepGraph::new(&cfg);
    let a = dg.find_or_add("a", "1");
    let b = dg.add_child(a, "b", "1");
    dg.add_child(b, "a", "1");
    assert!(dg.set_root("a", "1"));
    assert_eq!(names(&dg), vec!["a", "b"]);
    assert_eq!(dg.edges, vec![Ed(0, 1), Ed(1, 0)]);
}

#[test]
fn set_root_swaps_nodes_and_edge_ends() {
    let cfg = Config::new("", "", "");
    let mut dg = DepGraph::new(&cfg);
    let a = dg.find_or_add("a", "1");
    let b = dg.add_child(a, "b", "1");
    let c = dg.add_child(b, "c", "1");
    dg.add_child(c, "a", "1");
    dg.add_child(c, "d", "1");
    dg.nodes[c].kind = DepKind::Build;
    assert_eq!(dg.edges, vec![Ed(0, 1), Ed(1, 2), Ed(2, 0), Ed(2, 3)]);
    assert!(dg.set_root("c", "1"));
    assert_eq!(names(&dg), vec!["c", "b", "a", "d"]);
    assert_eq!(dg.nodes[0].kind, DepKind::Build);
    assert_eq!(dg.nodes[2].kind, DepKind::Normal);
    assert_eq!(dg.edges, vec![Ed(2, 1), Ed(1, 0), Ed(0, 2), Ed(0, 3)]);
    assert_eq!(dg.find("c", "1"), Some(0));
}

#[test]
fn set_root_keeps_the_relationships() {
    let cfg = Config::new("", "", "");
    let mut dg = DepGraph::new(&cfg);
    let a = dg.find_or_add("a", "1");
    let b = dg.add_child(a, "b", "1");
    let c = dg.add_child(a, "c", "1");
    dg.add_child(b, "c", "1");
    dg.add_child(c, "c", "1");
    let before: Vec<(String, String)> = dg
        .edges
        .iter()
        .map(|e| (dg.nodes[e.0].name.clone(), dg.nodes[e.1].name.clone()))
        .collect();
    assert!(dg.set_root("c", "1"));
    let after: Vec<(String, String)> = dg
        .edges
        .iter()
        .map(|e| (dg.nodes[e.0].name.clone(), dg.nodes[e.1].name.clone()))
        .collect();
    assert_eq!(before, after);
    assert_eq!(dg.nodes[0].name, "c");
    assert_eq!(dg.nodes[0].ver, "1");
}

#[test]
fn set_root_to_the_last_slot() {
    let cfg = Config::new("", "", "");
    let mut dg = DepGraph::new(&cfg);
    let a = dg.find_or_add("a", "1");
    dg.add_child(a, "b", "1");
    dg.add_child(a, "c", "1");
    assert!(dg.set_root("c", "1"));
    assert_eq!(names(&dg), vec!["c", "b", "a"]);
    assert_eq!(dg.edges, vec![Ed(2, 1), Ed(2, 0)]);
}
