use reactive_core::graph::{
    holds, holds_edge, mark_reachable, without_id, without_marked, without_marked_ends,
    without_subscriber, Edge,
};

fn edge(source: usize, subscriber: usize) -> Edge {
    Edge { source, subscriber }
}

fn pairs(edges: &[Edge]) -> Vec<(usize, usize)> {
    edges.iter().map(|e| (e.source, e.subscriber)).collect()
}

#[test]
fn nothing_is_reached_without_edges() {
    assert_eq!(mark_reachable(&vec![], 3, 0), vec![false, false, false]);
    assert_eq!(mark_reachable(&vec![], 0, 0), Vec::<bool>::new());
}

#[test]
fn direct_subscribers_are_reached() {
    let edges = vec![edge(0, 1), edge(0, 3), edge(2, 4)];
    assert_eq!(mark_reachable(&edges, 5, 0), vec![false, true, false, true, false]);
    assert_eq!(mark_reachable(&edges, 5, 2), vec![false, false, false, false, true]);
    assert_eq!(mark_reachable(&edges, 5, 1), vec![false; 5]);
}

#[test]
fn subscribers_of_subscribers_are_reached() {
    // listed against the direction of the path
    let edges = vec![edge(3, 4), edge(2, 3), edge(1, 2), edge(0, 1)];
    assert_eq!(mark_reachable(&edges, 6, 0), vec![false, true, true, true, true, false]);
    assert_eq!(mark_reachable(&edges, 6, 2), vec![false, false, false, true, true, false]);
}

#[test]
fn source_is_reached_only_through_a_cycle() {
    let edges = vec![edge(0, 1), edge(1, 0), edge(1, 2)];
    assert_eq!(mark_reachable(&edges, 3, 0), vec![true, true, true]);
    let line = vec![edge(0, 1), edge(1, 2)];
    assert_eq!(mark_reachable(&line, 3, 0), vec![false, true, true]);
}

#[test]
fn membership_of_ids_and_edges() {
    assert!(holds(&vec![4, 2, 9], 9));
    assert!(!holds(&vec![4, 2, 9], 3));
    assert!(!holds(&vec![], 0));
    let edges = vec![edge(0, 1), edge(2, 1)];
    assert!(holds_edge(&edges, 2, 1));
    assert!(!holds_edge(&edges, 1, 2));
    assert!(!holds_edge(&edges, 0, 2));
}

#[test]
fn filters_keep_the_order_of_what_stays() {
    assert_eq!(without_id(&vec![3, 1, 3, 2], 3), vec![1, 2]);
    assert_eq!(without_id(&vec![3, 1, 2], 7), vec![3, 1, 2]);
    let marks = vec![false, true, false];
    assert_eq!(without_marked(&vec![2, 1, 0, 5], &marks), vec![2, 0, 5]);
    let edges = vec![edge(0, 1), edge(0, 2), edge(1, 2), edge(2, 0)];
    assert_eq!(pairs(&without_subscriber(&edges, 2)), vec![(0, 1), (2, 0)]);
    assert_eq!(pairs(&without_marked_ends(&edges, &marks)), vec![(0, 2), (2, 0)]);
}
