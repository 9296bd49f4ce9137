//! Tests of the text renderings: decimal id strings and the DOT digraph.

use std::collections::BTreeSet;

use git_descendants::calculate::graph_from_all;
use git_descendants::graph::Graph;
use git_descendants::render::{id_to_string, ids_to_strings};
use git_descendants::store::{Commit, Store};

#[test]
fn decimal_strings_are_exact() {
    assert_eq!(id_to_string(0), "0");
    assert_eq!(id_to_string(7), "7");
    assert_eq!(id_to_string(10), "10");
    assert_eq!(id_to_string(42), "42");
    assert_eq!(id_to_string(1234567890), "1234567890");
    assert_eq!(id_to_string(u64::MAX), "18446744073709551615");
}

#[test]
fn id_lists_render_in_order() {
    assert_eq!(
        ids_to_strings(&vec![3, 1, 400]),
        vec!["3".to_string(), "1".to_string(), "400".to_string()]
    );
    assert_eq!(ids_to_strings(&vec![]), Vec::<String>::new());
}

#[test]
fn node_strings_render_parents_and_children() {
    let mut graph = Graph::new();
    assert!(graph.add(&Commit::new(10, 1, vec![])).is_ok());
    assert!(graph.add(&Commit::new(11, 2, vec![10])).is_ok());
    let node = graph.parents(11).expect("node exists");
    assert_eq!(node, &vec![10]);
    let empty = git_descendants::graph::Node::new();
    assert_eq!(empty.parent_strings(), Vec::<String>::new());
    assert_eq!(empty.children_strings(), Vec::<String>::new());
    let filled = git_descendants::graph::Node {
        parents: vec![5, 10],
        children: vec![1234567890],
        added: true,
    };
    assert_eq!(filled.parent_strings(), vec!["5".to_string(), "10".to_string()]);
    assert_eq!(filled.children_strings(), vec!["1234567890".to_string()]);
}

#[test]
fn dot_output_has_expected_shape() {
    let mut store = Store::new();
    assert!(store.add_commit(1, 10, vec![]));
    assert!(store.add_commit(2, 20, vec![1]));
    let graph = graph_from_all(&store);
    let dot = graph.to_dot();
    assert!(dot.starts_with("digraph G {\n"));
    assert!(dot.ends_with("}\n"));
    assert!(dot.contains("  n1 -> n2;\n"));
}

/// Parses the edge lines of a DOT rendering back into an edge set.
fn edges_from_dot(dot: &str) -> BTreeSet<(u64, u64)> {
    let mut edges = BTreeSet::new();
    for line in dot.lines() {
        let line = line.trim();
        if line == "digraph G {" || line == "}" || line.is_empty() {
            continue;
        }
        let line = line.strip_suffix(';').expect("edge lines end with a semicolon");
        let (left, right) = line.split_once(" -> ").expect("edge lines have an arrow");
        let parent: u64 = left.strip_prefix('n').unwrap().parse().unwrap();
        let child: u64 = right.strip_prefix('n').unwrap().parse().unwrap();
        edges.insert((parent, child));
    }
    edges
}

/// The edge set as the JSON adjacency map gives it: from each node's
/// recorded parent list.
fn edges_from_parent_lists(graph: &Graph) -> BTreeSet<(u64, u64)> {
    let mut edges = BTreeSet::new();
    for &id in graph.node_ids() {
        for &parent in graph.parents(id).expect("listed ids have nodes") {
            edges.insert((parent, id));
        }
    }
    edges
}

/// The edge set the DOT rendering walks: from each node's child list.
fn edges_from_child_lists(graph: &Graph) -> BTreeSet<(u64, u64)> {
    let mut edges = BTreeSet::new();
    for &id in graph.node_ids() {
        for &child in graph.children(id).expect("listed ids have nodes") {
            edges.insert((id, child));
        }
    }
    edges
}

/// Parses the JSON adjacency map back into the edge set its parent lists
/// record.
fn edges_from_json(json: &str) -> BTreeSet<(u64, u64)> {
    let value: serde_json::Value = serde_json::from_str(json).expect("valid JSON");
    let map = value.as_object().expect("an object at the top");
    let mut edges = BTreeSet::new();
    for (id, node) in map {
        let id: u64 = id.parse().unwrap();
        let parents = node
            .get("parents")
            .and_then(|p| p.as_array())
            .expect("a parents array per node");
        for parent in parents {
            let parent: u64 = parent.as_str().unwrap().parse().unwrap();
            edges.insert((parent, id));
        }
    }
    edges
}

#[test]
fn json_output_has_expected_shape() {
    let mut store = Store::new();
    assert!(store.add_commit(1, 10, vec![]));
    assert!(store.add_commit(2, 20, vec![1]));
    let graph = graph_from_all(&store);
    let json = graph.to_json();
    let value: serde_json::Value = serde_json::from_str(&json).expect("valid JSON");
    assert_eq!(value["1"]["parents"], serde_json::Value::Array(vec![]));
    assert_eq!(value["1"]["children"][0].as_str(), Some("2"));
    assert_eq!(value["2"]["parents"][0].as_str(), Some("1"));
    assert_eq!(Graph::new().to_json(), "{}");
}

#[test]
fn dot_and_json_round_trip_to_the_same_edge_set() {
    let mut store = Store::new();
    assert!(store.add_commit(1, 10, vec![]));
    assert!(store.add_commit(2, 20, vec![1]));
    assert!(store.add_commit(3, 30, vec![1]));
    assert!(store.add_commit(4, 40, vec![2, 3]));
    let graph = graph_from_all(&store);
    assert_eq!(edges_from_dot(&graph.to_dot()), edges_from_json(&graph.to_json()));
}

#[test]
fn dot_and_adjacency_map_describe_the_same_edge_set() {
    // a small DAG with a merge and an orphan
    let mut store = Store::new();
    assert!(store.add_commit(1, 10, vec![]));
    assert!(store.add_commit(2, 20, vec![1]));
    assert!(store.add_commit(3, 30, vec![1]));
    assert!(store.add_commit(4, 40, vec![2, 3]));
    assert!(store.add_commit(5, 50, vec![1]));
    let graph = graph_from_all(&store);

    let from_dot = edges_from_dot(&graph.to_dot());
    let from_parents = edges_from_parent_lists(&graph);
    let from_children = edges_from_child_lists(&graph);
    let expected: BTreeSet<(u64, u64)> =
        [(1, 2), (1, 3), (2, 4), (3, 4), (1, 5)].into_iter().collect();

    assert_eq!(from_dot, expected);
    assert_eq!(from_parents, expected);
    assert_eq!(from_children, expected);
}
