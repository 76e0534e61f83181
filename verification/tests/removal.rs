use depgraph::config::Config;
use depgraph::graph::{DepGraph, Ed};
use depgraph::importance::{starts_with, Importance};
use depgraph::order::sort_dedup;

fn names(dg: &DepGraph) -> Vec<String> {
    dg.nodes.iter().map(|d| d.name.clone()).collect()
}

fn chain<'c, 'o>(cfg: &'c Config<'o>, n: usize) -> DepGraph<'c, 'o> {
    let mut dg = DepGraph::new(cfg);
    let mut last = dg.find_or_add("n0", "1");
    for i in 1..n {
        last = dg.add_child(last, &format!("n{}", i), "1");
    }
    dg
}

#[test]
fn remove_shifts_every_later_slot() {
    let cfg = Config::new("", "", "");
    let mut dg = chain(&cfg, 5);
    dg.edges.push(Ed(0, 4));
    dg.edges.push(Ed(4, 0));
    dg.edges.push(Ed(3, 3));
    assert_eq!(dg.edges, vec![Ed(0, 1), Ed(1, 2), Ed(2, 3), Ed(3, 4), Ed(0, 4), Ed(4, 0), Ed(3, 3)]);
    dg.remove(2);
    assert_eq!(names(&dg), vec!["n0", "n1", "n3", "n4"]);
    assert_eq!(dg.edges, vec![Ed(0, 1), Ed(2, 3), Ed(0, 3), Ed(3, 0), Ed(2, 2)]);
}

#[test]
fn remove_shifts_edges_to_the_last_node() {
    let cfg = Config::new("", "", "");
    let mut dg = chain(&cfg, 3);
    dg.edges.push(Ed(0, 2));
    dg.remove(1);
    assert_eq!(names(&dg), vec!["n0", "n2"]);
    assert_eq!(dg.edges, vec![Ed(0, 1)]);
    for e in &dg.edges {
        assert!(e.0 < dg.nodes.len() && e.1 < dg.nodes.len());
    }
}

#[test]
fn remove_first_slot() {
    let cfg = Config::new("", "", "");
    let mut dg = chain(&cfg, 3);
    dg.remove(0);
    assert_eq!(names(&dg), vec!["n1", "n2"]);
    assert_eq!(dg.edges, vec![Ed(0, 1)]);
}

#[test]
fn remove_last_slot() {
    let cfg = Config::new("", "", "");
    let mut dg = chain(&cfg, 3);
    dg.remove(2);
    assert_eq!(names(&dg), vec!["n0", "n1"]);
    assert_eq!(dg.edges, vec![Ed(0, 1)]);
}

#[test]
fn remove_only_node() {
    let cfg = Config::new("", "", "");
    let mut dg = chain(&cfg, 1);
    dg.edges.push(Ed(0, 0));
    dg.remove(0);
    assert!(dg.nodes.is_empty());
    assert!(dg.edges.is_empty());
}

#[test]
fn remove_in_descending_order_removes_a_batch() {
    let cfg = Config::new("", "", "");
    let mut dg = chain(&cfg, 6);
    dg.remove(4);
    dg.remove(1);
    assert_eq!(names(&dg), vec!["n0", "n2", "n3", "n5"]);
    assert_eq!(dg.edges, vec![Ed(1, 2)]);
}

#[test]
fn remove_orphans_on_empty_graph() {
    let cfg = Config::new("", "", "");
    let mut dg = DepGraph::new(&cfg);
    dg.edges.push(Ed(0, 0));
    dg.edges.push(Ed(3, 1));
    dg.remove_orphans();
    assert!(dg.nodes.is_empty());
    assert!(dg.edges.is_empty());
}

#[test]
fn remove_orphans_keeps_a_lone_root() {
    let cfg = Config::new("", "", "");
    let mut dg = chain(&cfg, 1);
    dg.remove_orphans();
    assert_eq!(names(&dg), vec!["n0"]);
    assert!(dg.edges.is_empty());
}

#[test]
fn remove_orphans_drops_dangling_edges() {
    let cfg = Config::new("", "", "");
    let mut dg = chain(&cfg, 2);
    dg.edges.push(Ed(0, 2));
    dg.edges.push(Ed(7, 1));
    dg.edges.push(Ed(1, 0));
    dg.remove_orphans();
    assert_eq!(names(&dg), vec!["n0", "n1"]);
    assert_eq!(dg.edges, vec![Ed(0, 1), Ed(1, 0)]);
}

#[test]
fn remove_orphans_removes_unlinked_nodes() {
    let cfg = Config::new("", "", "");
    let mut dg = chain(&cfg, 3);
    dg.find_or_add("x", "1");
    dg.find_or_add("y", "1");
    dg.add_child(0, "z", "1");
    dg.remove_orphans();
    assert_eq!(names(&dg), vec!["n0", "n1", "n2", "z"]);
    assert_eq!(dg.edges, vec![Ed(0, 1), Ed(1, 2), Ed(0, 3)]);
}

#[test]
fn remove_orphans_follows_chains_of_orphans() {
    let cfg = Config::new("", "", "");
    let mut dg = chain(&cfg, 2);
    let x = dg.find_or_add("x", "1");
    let y = dg.add_child(x, "y", "1");
    dg.add_child(y, "z", "1");
    dg.add_child(y, "n1", "1");
    assert_eq!(dg.edges, vec![Ed(0, 1), Ed(2, 3), Ed(3, 4), Ed(3, 1)]);
    dg.remove_orphans();
    assert_eq!(names(&dg), vec!["n0", "n1"]);
    assert_eq!(dg.edges, vec![Ed(0, 1)]);
}

#[test]
fn remove_orphans_keeps_a_cycle_apart_from_the_root() {
    let cfg = Config::new("", "", "");
    let mut dg = chain(&cfg, 1);
    let x = dg.find_or_add("x", "1");
    let y = dg.add_child(x, "y", "1");
    dg.add_child(y, "x", "1");
    dg.remove_orphans();
    assert_eq!(names(&dg), vec!["n0", "x", "y"]);
    assert_eq!(dg.edges, vec![Ed(1, 2), Ed(2, 1)]);
}

#[test]
fn remove_orphans_counts_a_self_loop_as_use() {
    let cfg = Config::new("", "", "");
    let mut dg = chain(&cfg, 1);
    let x = dg.find_or_add("x", "1");
    dg.add_child(x, "x", "1");
    dg.remove_orphans();
    assert_eq!(names(&dg), vec!["n0", "x"]);
    assert_eq!(dg.edges, vec![Ed(1, 1)]);
}

#[test]
fn remove_orphans_twice_changes_nothing_more() {
    let cfg = Config::new("", "", "");
    let mut dg = chain(&cfg, 4);
    let x = dg.find_or_add("x", "1");
    dg.add_child(x, "n2", "1");
    dg.edges.push(Ed(9, 9));
    dg.remove_orphans();
    let nodes = dg.nodes.clone();
    let edges = dg.edges.clone();
    assert_eq!(names(&dg), vec!["n0", "n1", "n2", "n3"]);
    assert_eq!(edges, vec![Ed(0, 1), Ed(1, 2), Ed(2, 3)]);
    dg.remove_orphans();
    assert_eq!(dg.nodes, nodes);
    assert_eq!(dg.edges, edges);
    for (slot, _) in dg.nodes.iter().enumerate() {
        assert!(slot == 0 || dg.edges.iter().any(|e| e.1 == slot));
    }
}

#[test]
fn remove_self_pointing_removes_every_loop() {
    let cfg = Config::new("", "", "");
    let mut dg = chain(&cfg, 3);
    dg.edges.insert(0, Ed(0, 0));
    dg.edges.push(Ed(2, 2));
    dg.edges.push(Ed(2, 2));
    dg.edges.push(Ed(2, 0));
    dg.remove_self_pointing();
    assert_eq!(names(&dg), vec!["n0", "n1", "n2"]);
    assert_eq!(dg.edges, vec![Ed(0, 1), Ed(1, 2), Ed(2, 0)]);
    dg.remove_self_pointing();
    assert_eq!(dg.edges, vec![Ed(0, 1), Ed(1, 2), Ed(2, 0)]);
}

#[test]
fn remove_self_pointing_without_loops_changes_nothing() {
    let cfg = Config::new("", "", "");
    let mut dg = chain(&cfg, 3);
    dg.remove_self_pointing();
    assert_eq!(dg.edges, vec![Ed(0, 1), Ed(1, 2)]);
    let mut empty = DepGraph::new(&cfg);
    empty.remove_self_pointing();
    assert!(empty.edges.is_empty());
}

#[test]
fn dedup_sorts_and_collapses() {
    let cfg = Config::new("", "", "");
    let mut dg = chain(&cfg, 4);
    dg.edges = vec![Ed(2, 3), Ed(0, 1), Ed(2, 1), Ed(0, 1), Ed(1, 2), Ed(2, 3), Ed(0, 1), Ed(1, 0)];
    dg.dedup_edges();
    assert_eq!(dg.edges, vec![Ed(0, 1), Ed(1, 0), Ed(1, 2), Ed(2, 1), Ed(2, 3)]);
    assert_eq!(dg.nodes.len(), 4);
    dg.dedup_edges();
    assert_eq!(dg.edges, vec![Ed(0, 1), Ed(1, 0), Ed(1, 2), Ed(2, 1), Ed(2, 3)]);
}

#[test]
fn dedup_agrees_with_sort_and_dedup_of_the_standard_library() {
    let mut edges = Vec::new();
    let mut x: usize = 12345;
    for _ in 0..500 {
        x = (x * 1103515245 + 12345) % 2147483648;
        let a = (x >> 8) % 17;
        x = (x * 1103515245 + 12345) % 2147483648;
        let b = (x >> 8) % 17;
        edges.push(Ed(a, b));
    }
    let ours = sort_dedup(&edges);
    let mut theirs = edges.clone();
    theirs.sort();
    theirs.dedup();
    assert_eq!(ours, theirs);
    assert!(ours.len() <= 17 * 17);
    assert!(ours.len() < edges.len());
}

#[test]
fn dedup_of_few_edges() {
    assert_eq!(sort_dedup(&vec![]), vec![]);
    assert_eq!(sort_dedup(&vec![Ed(3, 1)]), vec![Ed(3, 1)]);
    assert_eq!(sort_dedup(&vec![Ed(3, 1), Ed(3, 1)]), vec![Ed(3, 1)]);
    assert_eq!(sort_dedup(&vec![Ed(3, 1), Ed(3, 0)]), vec![Ed(3, 0), Ed(3, 1)]);
    assert_eq!(
        sort_dedup(&vec![Ed(usize::MAX, 0), Ed(0, usize::MAX), Ed(0, 0)]),
        vec![Ed(0, 0), Ed(0, usize::MAX), Ed(usize::MAX, 0)]
    );
}

#[test]
fn starts_with_compares_characters() {
    assert!(starts_with("proto_rpc", "proto_"));
    assert!(starts_with("proto_", "proto_"));
    assert!(starts_with("anything", ""));
    assert!(starts_with("", ""));
    assert!(!starts_with("proto", "proto_"));
    assert!(!starts_with("my_proto_rpc", "proto_"));
    assert!(!starts_with("", "p"));
    assert!(starts_with("héllo wörld", "héllo"));
    assert!(!starts_with("héllo", "hello"));
}

#[test]
fn importance_needs_the_allowlist_and_no_excluded_prefix() {
    let f = Importance::new(
        vec!["common".to_string(), "proto_common".to_string(), "tree".to_string()],
        Some("proto_".to_string()),
    );
    assert!(f.is_important("common"));
    assert!(f.is_important("tree"));
    assert!(!f.is_important("proto_common"));
    assert!(!f.is_important("proto_other"));
    assert!(!f.is_important("other"));
    assert!(!f.is_important(""));
    let g = Importance::new(vec!["proto_common".to_string()], None);
    assert!(g.is_important("proto_common"));
    assert!(!g.is_important("common"));
    let none = Importance::new(vec![], None);
    assert!(!none.is_important("common"));
}

#[test]
fn retain_important_removes_the_rest() {
    let cfg = Config::new("", "", "");
    let mut dg = chain(&cfg, 6);
    dg.edges.push(Ed(0, 2));
    dg.edges.push(Ed(2, 5));
    dg.edges.push(Ed(5, 0));
    dg.edges.push(Ed(3, 3));
    let f = Importance::new(
        vec!["n0".to_string(), "n2".to_string(), "n5".to_string(), "gone".to_string()],
        None,
    );
    dg.retain_important(&f);
    assert_eq!(names(&dg), vec!["n0", "n2", "n5"]);
    assert_eq!(dg.edges, vec![Ed(0, 1), Ed(1, 2), Ed(2, 0)]);
}

#[test]
fn retain_important_can_remove_the_root() {
    let cfg = Config::new("", "", "");
    let mut dg = chain(&cfg, 3);
    let f = Importance::new(vec!["n1".to_string(), "n2".to_string()], None);
    dg.retain_important(&f);
    assert_eq!(names(&dg), vec!["n1", "n2"]);
    assert_eq!(dg.edges, vec![Ed(0, 1)]);
}

#[test]
fn retain_important_with_empty_allowlist_removes_all() {
    let cfg = Config::new("", "", "");
    let mut dg = chain(&cfg, 3);
    let f = Importance::new(vec![], None);
    dg.retain_important(&f);
    assert!(dg.nodes.is_empty());
    assert!(dg.edges.is_empty());
}

#[test]
fn retain_important_applies_the_excluded_prefix() {
    let cfg = Config::new("", "", "");
    let mut dg = DepGraph::new(&cfg);
    let app = dg.find_or_add("app", "1");
    let stub = dg.add_child(app, "proto_app", "1");
    dg.add_child(stub, "common", "1");
    dg.add_child(app, "common", "1");
    let f = Importance::new(
        vec!["app".to_string(), "proto_app".to_string(), "common".to_string()],
        Some("proto_".to_string()),
    );
    dg.retain_important(&f);
    assert_eq!(names(&dg), vec!["app", "common"]);
    assert_eq!(dg.edges, vec![Ed(0, 1)]);
}

#[test]
fn importance_with_empty_prefix_keeps_nothing() {
    let f = Importance::new(vec!["common".to_string()], Some(String::new()));
    assert!(!f.is_important("common"));
    assert!(!f.is_important(""));
}

#[test]
fn retain_important_keeps_order_and_kinds() {
    let cfg = Config::new("", "", "");
    let mut dg = chain(&cfg, 5);
    dg.nodes[3].kind = depgraph::dep::DepKind::Optional;
    dg.edges.push(Ed(4, 1));
    let f = Importance::new(
        vec!["n4".to_string(), "n3".to_string(), "n1".to_string()],
        Some("n0".to_string()),
    );
    dg.retain_important(&f);
    assert_eq!(names(&dg), vec!["n1", "n3", "n4"]);
    assert_eq!(dg.nodes[1].kind, depgraph::dep::DepKind::Optional);
    assert_eq!(dg.edges, vec![Ed(1, 2), Ed(2, 0)]);
}
