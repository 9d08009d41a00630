use ena_graph::graph::{adjacency_list, contains, key_list};
use ena_graph::paths::{bfs, bfs_order};
use std::collections::HashMap;

#[test]
fn test_bfs() {
    let edges = vec![(1, 2), (2, 3), (2, 4), (3, 4), (4, 5), (5, 6)];
    let adj_list = adjacency_list(&edges);
    let expected = {
        let mut map = HashMap::new();
        map.insert(1, 0);
        map.insert(2, 1);
        map.insert(3, 2);
        map.insert(4, 2);
        map.insert(5, 3);
        map.insert(6, 4);
        map
    };
    let result = bfs(1, &adj_list);
    assert_eq!(result, expected);
}

#[test]
fn bfs_on_a_path() {
    let graph = adjacency_list(&[(1, 2), (2, 3), (3, 4), (4, 5), (5, 6)]);
    let distances = bfs(1, &graph);
    let expected: HashMap<u32, u32> = (1..=6u32).map(|v| (v, v - 1)).collect();
    assert_eq!(distances, expected);
}

#[test]
fn bfs_leaves_out_what_is_not_reached() {
    let graph = adjacency_list(&[(1, 2), (2, 3), (10, 11)]);
    let near = bfs(1, &graph);
    assert_eq!(near.len(), 3);
    assert!(!near.contains_key(&10));
    assert!(!near.contains_key(&11));
    let far = bfs(10, &graph);
    assert_eq!(far.len(), 2);
    assert_eq!(far[&11], 1);
    assert!(!far.contains_key(&1));
}

#[test]
fn bfs_is_symmetric() {
    let edges = vec![(1, 2), (2, 3), (2, 4), (3, 4), (4, 5), (5, 6), (8, 9)];
    let graph = adjacency_list(&edges);
    for u in [1u32, 2, 3, 4, 5, 6, 8, 9] {
        let from_u = bfs(u, &graph);
        for v in [1u32, 2, 3, 4, 5, 6, 8, 9] {
            let from_v = bfs(v, &graph);
            assert_eq!(from_u.get(&v), from_v.get(&u));
        }
    }
}

#[test]
fn bfs_from_a_stranger() {
    let graph = adjacency_list(&[(1, 2)]);
    let distances = bfs(5, &graph);
    assert_eq!(distances.len(), 1);
    assert_eq!(distances[&5], 0);
}

#[test]
fn bfs_order_goes_outwards() {
    let graph = adjacency_list(&[(1, 2), (1, 3), (2, 4), (3, 4), (4, 5)]);
    let (distances, order) = bfs_order(1, &graph);
    assert_eq!(order, vec![1, 2, 3, 4, 5]);
    assert_eq!(distances[&5], 3);
}

#[test]
fn graph_skips_loops_and_repeats() {
    let graph = adjacency_list(&[(1, 2), (2, 1), (1, 2), (3, 3), (2, 4), (4, 4)]);
    assert_eq!(graph.len(), 3);
    assert_eq!(graph[&1], vec![2]);
    assert_eq!(graph[&2], vec![1, 4]);
    assert_eq!(graph[&4], vec![2]);
    assert!(!graph.contains_key(&3));
}

#[test]
fn graph_is_symmetric() {
    let graph = adjacency_list(&[(5, 1), (1, 9), (9, 5), (2, 9)]);
    for (node, neighbours) in &graph {
        for other in neighbours {
            assert!(graph[other].contains(node));
        }
    }
    assert!(adjacency_list(&[]).is_empty());
}

#[test]
fn keys_and_membership() {
    let graph = adjacency_list(&[(1, 2), (2, 3)]);
    let mut keys = key_list(&graph);
    keys.sort();
    assert_eq!(keys, vec![1, 2, 3]);
    assert!(contains(&graph[&2], 3));
    assert!(!contains(&graph[&1], 3));
}
