use ena_graph::census::{
    count_self_loops, highest_node, is_complete, lowest_node, single_connection_nodes,
};
use ena_graph::graph::adjacency_list;

#[test]
fn self_loops_are_counted() {
    assert_eq!(count_self_loops(&[]), 0);
    assert_eq!(count_self_loops(&[(1, 2), (2, 2), (3, 1), (3, 3), (3, 3)]), 3);
    assert_eq!(count_self_loops(&[(1, 2), (2, 1)]), 0);
}

#[test]
fn highest_and_lowest_identifier() {
    let graph = adjacency_list(&[(5, 1), (1, 9), (7, 3)]);
    assert_eq!(highest_node(&graph), Some(9));
    assert_eq!(lowest_node(&graph), Some(1));
    let empty = adjacency_list(&[]);
    assert_eq!(highest_node(&empty), None);
    assert_eq!(lowest_node(&empty), None);
    let ends = adjacency_list(&[(0, u32::MAX)]);
    assert_eq!(highest_node(&ends), Some(u32::MAX));
    assert_eq!(lowest_node(&ends), Some(0));
}

#[test]
fn nodes_with_one_connection() {
    let graph = adjacency_list(&[(1, 2), (2, 3), (2, 4), (3, 4), (4, 5), (5, 6)]);
    let mut single = single_connection_nodes(&graph);
    single.sort();
    assert_eq!(single, vec![1, 6]);
    assert!(single_connection_nodes(&adjacency_list(&[(1, 2), (2, 3), (3, 1)])).is_empty());
}

#[test]
fn complete_graphs() {
    assert!(is_complete(&adjacency_list(&[(1, 2), (2, 3), (3, 1)])));
    assert!(is_complete(&adjacency_list(&[(1, 2)])));
    assert!(is_complete(&adjacency_list(&[])));
    assert!(!is_complete(&adjacency_list(&[(1, 2), (2, 3)])));
    assert!(!is_complete(&adjacency_list(&[(1, 2), (3, 4)])));
}
