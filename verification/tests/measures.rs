use ena_graph::betweenness::calculate_betweenness_centrality;
use ena_graph::centrality::{
    calculate_degree_centrality, graph_density, max_degree_node, min_degree_node,
};
use ena_graph::graph::adjacency_list;
use ena_graph::ratio::Ratio;
use ena_graph::stats::{
    avg_degrees_of_separation, bfs_all_nodes, calculate_average_path_length, distance_profile,
    distance_totals, validate_six_degrees,
};
use ena_graph::paths::bfs;

fn path_graph() -> Vec<(u32, u32)> {
    vec![(1, 2), (2, 3), (3, 4), (4, 5), (5, 6)]
}

fn star(k: u32) -> Vec<(u32, u32)> {
    let mut edges = Vec::new();
    for leaf in 1..=k {
        edges.push((0, leaf));
    }
    edges
}

#[test]
fn degree_centrality_of_a_star() {
    let graph = adjacency_list(&star(4));
    let scores = calculate_degree_centrality(&graph);
    assert_eq!(scores.len(), 5);
    assert_eq!(scores[&0], Ratio { num: 4, den: 4 });
    for leaf in 1..=4u32 {
        assert_eq!(scores[&leaf], Ratio { num: 1, den: 4 });
    }
}

#[test]
fn degree_centralities_sum_to_twice_the_edges() {
    let edges = vec![(1, 2), (2, 3), (2, 4), (3, 4), (4, 5), (5, 6)];
    let graph = adjacency_list(&edges);
    let scores = calculate_degree_centrality(&graph);
    let total: u128 = scores.values().map(|r| r.num).sum();
    assert_eq!(total, 12);
    assert!(scores.values().all(|r| r.den == 5));
}

#[test]
fn degree_centrality_of_the_empty_graph() {
    let graph = adjacency_list(&[]);
    assert!(calculate_degree_centrality(&graph).is_empty());
}

#[test]
fn average_path_length_of_a_path() {
    let graph = adjacency_list(&path_graph());
    let average = calculate_average_path_length(&graph);
    assert_eq!(average, Ratio { num: 70, den: 30 });
    assert_eq!(average.num * 3, average.den * 7);
    assert!(validate_six_degrees(average));
}

#[test]
fn average_path_length_counts_reachable_pairs_only() {
    let graph = adjacency_list(&[(1, 2), (3, 4), (4, 5)]);
    let average = calculate_average_path_length(&graph);
    assert_eq!(average, Ratio { num: 2 + 8, den: 2 + 6 });
}

#[test]
fn average_path_length_without_edges() {
    let graph = adjacency_list(&[]);
    assert_eq!(calculate_average_path_length(&graph), Ratio { num: 0, den: 1 });
    let loops = adjacency_list(&[(7, 7)]);
    assert_eq!(calculate_average_path_length(&loops), Ratio { num: 0, den: 1 });
}

#[test]
fn six_degrees_threshold() {
    assert!(validate_six_degrees(Ratio { num: 6, den: 1 }));
    assert!(validate_six_degrees(Ratio { num: 12, den: 2 }));
    assert!(!validate_six_degrees(Ratio { num: 13, den: 2 }));
    assert!(validate_six_degrees(Ratio { num: 0, den: 1 }));
    assert!(validate_six_degrees(Ratio { num: u128::MAX, den: u128::MAX }));
    assert!(!validate_six_degrees(Ratio { num: u128::MAX, den: u128::MAX / 7 }));
}

#[test]
fn mean_distances_per_node() {
    let graph = adjacency_list(&path_graph());
    let means = bfs_all_nodes(&graph);
    assert_eq!(means.len(), 6);
    assert_eq!(means[&1], Some(Ratio { num: 15, den: 5 }));
    assert_eq!(means[&3], Some(Ratio { num: 9, den: 5 }));
    assert_eq!(means[&6], Some(Ratio { num: 15, den: 5 }));
}

#[test]
fn distance_totals_of_a_search() {
    let graph = adjacency_list(&path_graph());
    let distances = bfs(2, &graph);
    assert_eq!(distance_totals(&distances), (1 + 1 + 2 + 3 + 4, 6));
}

#[test]
fn least_and_greatest_degree() {
    let graph = adjacency_list(&[(1, 2), (2, 3), (2, 4), (3, 4), (4, 5), (5, 6)]);
    assert_eq!(min_degree_node(&graph), Some(1));
    assert_eq!(max_degree_node(&graph), Some(4));
    let empty = adjacency_list(&[]);
    assert_eq!(min_degree_node(&empty), None);
    assert_eq!(max_degree_node(&empty), None);
}

#[test]
fn density_of_a_triangle_and_a_path() {
    let triangle = adjacency_list(&[(1, 2), (2, 3), (3, 1)]);
    assert_eq!(graph_density(&triangle), Ratio { num: 6, den: 6 });
    let path = adjacency_list(&path_graph());
    assert_eq!(graph_density(&path), Ratio { num: 10, den: 30 });
    assert_eq!(graph_density(&adjacency_list(&[])), Ratio { num: 0, den: 1 });
}

#[test]
fn separation_of_a_path() {
    let graph = adjacency_list(&path_graph());
    assert_eq!(avg_degrees_of_separation(&graph), Some(Ratio { num: 70, den: 30 }));
}

#[test]
fn separation_differs_from_the_average_path_length() {
    let graph = adjacency_list(&[(1, 2), (3, 4), (4, 5)]);
    assert_eq!(avg_degrees_of_separation(&graph), Some(Ratio { num: 12, den: 10 }));
    assert_eq!(calculate_average_path_length(&graph), Ratio { num: 10, den: 8 });
}

#[test]
fn separation_without_edges() {
    assert_eq!(avg_degrees_of_separation(&adjacency_list(&[])), Some(Ratio { num: 0, den: 1 }));
}

#[test]
fn distance_profile_follows_the_nodes() {
    let graph = adjacency_list(&[(1, 2), (3, 4), (4, 5)]);
    let nodes = vec![4, 1, 5];
    assert_eq!(distance_profile(&graph, &nodes), vec![(2, 2), (1, 1), (3, 2)]);
}

#[test]
fn every_quotient_has_a_denominator() {
    let graphs = vec![
        adjacency_list(&[]),
        adjacency_list(&[(4, 4)]),
        adjacency_list(&[(1, 2)]),
        adjacency_list(&path_graph()),
        adjacency_list(&star(5)),
        adjacency_list(&[(1, 2), (2, 3), (3, 1), (7, 8), (8, 9), (9, 10), (10, 7)]),
    ];
    for graph in &graphs {
        assert!(calculate_degree_centrality(graph).values().all(|r| r.den > 0 && r.num <= r.den));
        assert!(calculate_betweenness_centrality(graph).unwrap().values().all(|r| r.den > 0));
        assert!(calculate_average_path_length(graph).den > 0);
        assert!(avg_degrees_of_separation(graph).unwrap().den > 0);
        assert!(graph_density(graph).den > 0);
        assert!(bfs_all_nodes(graph).values().all(|m| m.map_or(true, |r| r.den > 0)));
    }
}
