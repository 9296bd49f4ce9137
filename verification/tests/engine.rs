//! End-to-end tests of the commit graph engine on small in-memory stores.

use git_descendants::calculate::{
    commits_only, graph_from_all, graph_from_refs, lost, root_commits_by_refs,
    traverse_from_roots,
};
use git_descendants::graph::{Graph, GraphError};
use git_descendants::store::{Commit, ObjectKind, Store, StoreError};

/// A (root) -> B -> C, referenced at C, plus an orphan D with parent A.
fn scenario_store() -> Store {
    let mut store = Store::new();
    assert!(store.add_commit(1, 100, vec![]));
    assert!(store.add_commit(2, 200, vec![1]));
    assert!(store.add_commit(3, 300, vec![2]));
    assert!(store.add_commit(4, 400, vec![1]));
    assert!(store.add_other_object(50, ObjectKind::Tree));
    assert!(store.add_other_object(51, ObjectKind::Blob));
    assert!(store.add_ref(Some(3)));
    store
}

fn ids_of(commits: &[Commit]) -> Vec<u64> {
    commits.iter().map(|c| c.id).collect()
}

fn sorted_ids_of(commits: &[Commit]) -> Vec<u64> {
    let mut ids = ids_of(commits);
    ids.sort();
    ids
}

#[test]
fn scenario_graph_from_refs() {
    let store = scenario_store();
    let graph = graph_from_refs(&store).expect("traversal must succeed");
    // nodes A, B, C only; the orphan D has no node in refs mode
    let mut ids = graph.node_ids().clone();
    ids.sort();
    assert_eq!(ids, vec![1, 2, 3]);
    assert_eq!(graph.children(1), Some(&vec![2]));
    assert_eq!(graph.children(2), Some(&vec![3]));
    assert_eq!(graph.children(3), Some(&vec![]));
    assert_eq!(graph.children(4), None);
}

#[test]
fn scenario_graph_from_all() {
    let store = scenario_store();
    let graph = graph_from_all(&store);
    let mut ids = graph.node_ids().clone();
    ids.sort();
    assert_eq!(ids, vec![1, 2, 3, 4]);
    // children of A in all mode: both B and D
    let mut children_of_a = graph.children(1).expect("A has a node").clone();
    children_of_a.sort();
    assert_eq!(children_of_a, vec![2, 4]);
    assert_eq!(graph.children(4), Some(&vec![]));
}

#[test]
fn scenario_lost_returns_orphan() {
    let store = scenario_store();
    let lost_commits = lost(&store).expect("traversal must succeed");
    assert_eq!(ids_of(&lost_commits), vec![4]);
    assert_eq!(lost_commits[0].time, 400);
    assert_eq!(lost_commits[0].parents, vec![1]);
}

#[test]
fn scenario_roots_are_ref_tips() {
    let store = scenario_store();
    let roots = root_commits_by_refs(&store);
    assert_eq!(ids_of(&roots), vec![3]);
    assert_eq!(roots[0].time, 300);
}

#[test]
fn roots_skip_refs_without_commit_and_keep_order_and_duplicates() {
    let mut store = Store::new();
    assert!(store.add_commit(7, 70, vec![]));
    assert!(store.add_commit(8, 80, vec![7]));
    assert!(store.add_ref(Some(8)));
    assert!(store.add_ref(None)); // a reference that peels to no commit
    assert!(store.add_ref(Some(7)));
    assert!(store.add_ref(Some(8))); // two references on one tip stay
    let roots = root_commits_by_refs(&store);
    assert_eq!(ids_of(&roots), vec![8, 7, 8]);
}

#[test]
fn traverse_visits_each_id_once_in_diamond_history() {
    // A (root) with children B and C, merged by D; two refs on D.
    let mut store = Store::new();
    assert!(store.add_commit(1, 10, vec![]));
    assert!(store.add_commit(2, 20, vec![1]));
    assert!(store.add_commit(3, 30, vec![1]));
    assert!(store.add_commit(4, 40, vec![2, 3]));
    assert!(store.add_ref(Some(4)));
    assert!(store.add_ref(Some(4)));
    let roots = root_commits_by_refs(&store);
    assert_eq!(ids_of(&roots), vec![4, 4]);
    let reached = traverse_from_roots(&store, &roots).expect("store is complete");
    // each reachable id exactly once, although A is reached on two paths
    // and D is started from twice
    assert_eq!(sorted_ids_of(&reached), vec![1, 2, 3, 4]);
}

#[test]
fn traverse_twice_yields_identical_reachable_sets() {
    let store = scenario_store();
    let roots = root_commits_by_refs(&store);
    let first = traverse_from_roots(&store, &roots).expect("store is complete");
    let second = traverse_from_roots(&store, &roots).expect("store is complete");
    assert_eq!(sorted_ids_of(&first), sorted_ids_of(&second));
}

#[test]
fn traverse_fails_on_missing_parent() {
    let mut store = Store::new();
    assert!(store.add_commit(2, 20, vec![9])); // parent 9 has no record
    assert!(store.add_ref(Some(2)));
    let roots = root_commits_by_refs(&store);
    let err = traverse_from_roots(&store, &roots).unwrap_err();
    assert_eq!(err, StoreError::MissingCommit(9));
    let err = graph_from_refs(&store).unwrap_err();
    assert_eq!(err, StoreError::MissingCommit(9));
    let err = lost(&store).unwrap_err();
    assert_eq!(err, StoreError::MissingCommit(9));
}

#[test]
fn traverse_fails_on_a_start_without_a_record() {
    let store = Store::new();
    let roots = vec![Commit::new(5, 0, vec![])];
    let err = traverse_from_roots(&store, &roots).unwrap_err();
    assert_eq!(err, StoreError::MissingCommit(5));
}

#[test]
fn empty_store_yields_empty_answers() {
    let store = Store::new();
    assert!(root_commits_by_refs(&store).is_empty());
    assert!(commits_only(&store).is_empty());
    assert!(traverse_from_roots(&store, &vec![]).unwrap().is_empty());
    assert!(lost(&store).unwrap().is_empty());
    let graph = graph_from_all(&store);
    assert!(graph.node_ids().is_empty());
    assert_eq!(graph.to_dot(), "digraph G {\n}\n");
    assert_eq!(graph.to_json(), "{}");
}

#[test]
fn lost_is_sorted_by_timestamp() {
    // A referenced; B, C, D orphans with out-of-order timestamps.
    let mut store = Store::new();
    assert!(store.add_commit(1, 500, vec![]));
    assert!(store.add_commit(2, 300, vec![1]));
    assert!(store.add_commit(3, 100, vec![1]));
    assert!(store.add_commit(4, 200, vec![1]));
    assert!(store.add_ref(Some(1)));
    let lost_commits = lost(&store).expect("store is complete");
    assert_eq!(ids_of(&lost_commits), vec![3, 4, 2]);
    let times: Vec<i64> = lost_commits.iter().map(|c| c.time).collect();
    assert_eq!(times, vec![100, 200, 300]);
}

#[test]
fn lost_keeps_enumeration_order_for_equal_timestamps() {
    let mut store = Store::new();
    assert!(store.add_commit(1, 10, vec![]));
    assert!(store.add_commit(2, 100, vec![1]));
    assert!(store.add_commit(3, 100, vec![1]));
    assert!(store.add_commit(4, 50, vec![1]));
    assert!(store.add_ref(Some(1)));
    let lost_commits = lost(&store).expect("store is complete");
    // 4 sorts first on its timestamp; 2 and 3 tie and keep their order
    assert_eq!(ids_of(&lost_commits), vec![4, 2, 3]);
}

#[test]
fn lost_is_empty_when_everything_is_reachable() {
    let mut store = Store::new();
    assert!(store.add_commit(1, 10, vec![]));
    assert!(store.add_commit(2, 20, vec![1]));
    assert!(store.add_ref(Some(2)));
    let lost_commits = lost(&store).expect("store is complete");
    assert!(lost_commits.is_empty());
}

#[test]
fn commits_only_keeps_enumeration_order_and_filters_kinds() {
    let mut store = Store::new();
    assert!(store.add_other_object(90, ObjectKind::Tag));
    assert!(store.add_commit(5, 50, vec![]));
    assert!(store.add_other_object(91, ObjectKind::Tree));
    assert!(store.add_commit(6, 60, vec![5]));
    assert!(store.add_other_object(92, ObjectKind::Other));
    assert!(store.add_commit(2, 20, vec![6]));
    let all = commits_only(&store);
    assert_eq!(ids_of(&all), vec![5, 6, 2]);
    assert_eq!(all[1].parents, vec![5]);
}

#[test]
fn store_builder_rejects_duplicates_and_unknown_ref_targets() {
    let mut store = Store::new();
    assert!(store.add_commit(1, 10, vec![]));
    assert!(!store.add_commit(1, 99, vec![])); // id already enumerated
    assert!(!store.add_other_object(1, ObjectKind::Blob));
    assert!(store.add_other_object(2, ObjectKind::Blob));
    assert!(!store.add_commit(2, 20, vec![])); // taken by the blob
    assert!(!store.add_ref(Some(3))); // no such commit
    assert!(!store.add_ref(Some(2))); // a blob is not a commit
    assert!(store.add_ref(Some(1)));
    assert_eq!(store.refs, vec![Some(1)]);
    let c = store.commit_by_id(1).expect("commit 1 exists");
    assert_eq!(c.time, 10);
    assert!(store.commit_by_id(2).is_none());
    assert!(store.commit_by_id(3).is_none());
}

#[test]
fn graph_add_rejects_a_second_add_of_the_same_commit() {
    let mut graph = Graph::new();
    let commit = Commit::new(1, 10, vec![]);
    assert_eq!(graph.add(&commit), Ok(()));
    assert_eq!(graph.add(&commit), Err(GraphError::DuplicateAdd(1)));
    // the rejected re-add changed nothing
    assert_eq!(graph.children(1), Some(&vec![]));
    assert_eq!(graph.node_ids(), &vec![1]);
}

#[test]
fn graph_records_each_edge_once_per_parent_occurrence() {
    let mut graph = Graph::new();
    assert_eq!(graph.add(&Commit::new(1, 10, vec![])), Ok(()));
    // a degenerate commit listing the same parent twice keeps both entries
    assert_eq!(graph.add(&Commit::new(2, 20, vec![1, 1])), Ok(()));
    assert_eq!(graph.children(1), Some(&vec![2, 2]));
    assert_eq!(graph.parents(2), Some(&vec![1, 1]));
}

#[test]
fn inverse_consistency_on_the_scenario_graph() {
    let store = scenario_store();
    let graph = graph_from_all(&store);
    for &id in graph.node_ids() {
        for &child in graph.children(id).expect("listed ids have nodes") {
            let parents = graph.parents(child).expect("children have nodes");
            assert!(parents.contains(&id), "child {child} must list {id} as parent");
        }
        for &parent in graph.parents(id).expect("listed ids have nodes") {
            let children = graph.children(parent).expect("parents have nodes");
            assert!(children.contains(&id), "parent {parent} must list {id} as child");
        }
    }
}

#[test]
fn root_commits_never_appear_as_children() {
    let store = scenario_store();
    let graph = graph_from_all(&store);
    // commit 1 is the only root; no child list may mention a parentless commit
    for &id in graph.node_ids() {
        let children = graph.children(id).expect("listed ids have nodes");
        for &child in children {
            let parents = graph.parents(child).expect("children have nodes");
            assert!(
                !parents.is_empty(),
                "a commit with no parents appeared as a child of {id}"
            );
        }
        assert!(!children.contains(&1));
    }
}

#[test]
fn placeholder_nodes_stay_for_unrecorded_parents_in_all_mode() {
    // commit 2 names parent 9, which the store has no record of
    let mut store = Store::new();
    assert!(store.add_commit(2, 20, vec![9]));
    let graph = graph_from_all(&store);
    let mut ids = graph.node_ids().clone();
    ids.sort();
    assert_eq!(ids, vec![2, 9]);
    assert_eq!(graph.children(9), Some(&vec![2]));
    assert_eq!(graph.parents(9), Some(&vec![]));
    assert!(!graph.contains_added(9));
    assert!(graph.contains_added(2));
}
