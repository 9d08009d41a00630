use ena_graph::betweenness::{
    add_dependencies, calculate_betweenness_centrality, count_shortest_paths, dependency_totals,
    path_count_lcm,
};
use ena_graph::graph::adjacency_list;
use ena_graph::ratio::Ratio;
use std::collections::HashMap;

fn star_edges(k: u32) -> Vec<(u32, u32)> {
    let mut edges = Vec::new();
    for leaf in 1..=k {
        edges.push((100, leaf));
    }
    edges
}

#[test]
fn betweenness_of_a_star() {
    for k in 1..=6u32 {
        let graph = adjacency_list(&star_edges(k));
        let scores = calculate_betweenness_centrality(&graph).unwrap();
        assert_eq!(scores.len(), k as usize + 1);
        let centre = scores[&100];
        assert_eq!(centre.den, 2);
        assert_eq!(centre.num, (k * (k - 1)) as u128);
        for leaf in 1..=k {
            assert_eq!(scores[&leaf], Ratio { num: 0, den: 2 });
        }
    }
}

#[test]
fn betweenness_of_a_path() {
    let graph = adjacency_list(&[(1, 2), (2, 3), (3, 4), (4, 5), (5, 6)]);
    let scores = calculate_betweenness_centrality(&graph).unwrap();
    let halves: Vec<u128> = (1..=6u32).map(|v| scores[&v].num).collect();
    assert_eq!(halves, vec![0, 8, 12, 12, 8, 0]);
    assert!(scores.values().all(|r| r.den == 2));
}

#[test]
fn betweenness_of_a_square_splits_the_two_ways() {
    let graph = adjacency_list(&[(1, 2), (2, 3), (3, 4), (4, 1)]);
    let scores = calculate_betweenness_centrality(&graph).unwrap();
    for v in 1..=4u32 {
        assert_eq!(scores[&v], Ratio { num: 2, den: 4 });
    }
}

#[test]
fn betweenness_with_a_shortcut() {
    let edges = vec![(1, 2), (2, 3), (2, 4), (3, 4), (4, 5), (5, 6)];
    let graph = adjacency_list(&edges);
    let scores = calculate_betweenness_centrality(&graph).unwrap();
    let den = scores[&1].den;
    assert!(scores.values().all(|r| r.den == den));
    let as_float = |v: u32| scores[&v].num as f64 / scores[&v].den as f64;
    assert_eq!(as_float(1), 0.0);
    assert_eq!(as_float(2), 4.0);
    assert_eq!(as_float(3), 0.0);
    assert_eq!(as_float(4), 6.0);
    assert_eq!(as_float(5), 4.0);
    assert_eq!(as_float(6), 0.0);
}

#[test]
fn betweenness_does_not_depend_on_the_names() {
    let edges = vec![(1, 2), (2, 3), (2, 4), (3, 4), (4, 5), (5, 6), (6, 1)];
    let renamed: Vec<(u32, u32)> =
        edges.iter().map(|&(a, b)| (1000 - 7 * a, 1000 - 7 * b)).collect();
    let first = calculate_betweenness_centrality(&adjacency_list(&edges)).unwrap();
    let second = calculate_betweenness_centrality(&adjacency_list(&renamed)).unwrap();
    for v in 1..=6u32 {
        assert_eq!(first[&v], second[&(1000 - 7 * v)]);
    }
}

#[test]
fn betweenness_of_separate_parts() {
    let graph = adjacency_list(&[(1, 2), (2, 3), (10, 11), (11, 12), (12, 13)]);
    let scores = calculate_betweenness_centrality(&graph).unwrap();
    assert_eq!(scores[&2], Ratio { num: 2, den: 2 });
    assert_eq!(scores[&11], Ratio { num: 4, den: 2 });
    assert_eq!(scores[&12], Ratio { num: 4, den: 2 });
    assert_eq!(scores[&1].num, 0);
    assert_eq!(scores[&13].num, 0);
}

#[test]
fn betweenness_of_the_empty_graph() {
    let graph = adjacency_list(&[]);
    assert!(calculate_betweenness_centrality(&graph).unwrap().is_empty());
}

#[test]
fn shortest_paths_are_counted() {
    let graph = adjacency_list(&[(1, 2), (1, 3), (2, 4), (3, 4), (4, 5), (4, 6), (5, 7), (6, 7)]);
    let search = count_shortest_paths(1, &graph).unwrap();
    assert_eq!(search.order[0], 1);
    assert_eq!(search.order.len(), 7);
    assert_eq!(search.counts[&1], 1);
    assert_eq!(search.counts[&2], 1);
    assert_eq!(search.counts[&4], 2);
    assert_eq!(search.counts[&5], 2);
    assert_eq!(search.counts[&7], 4);
    assert_eq!(search.distances[&7], 4);
    for pair in search.order.windows(2) {
        assert!(search.distances[&pair[0]] <= search.distances[&pair[1]]);
    }
}

#[test]
fn common_multiple_of_the_path_counts() {
    let square = adjacency_list(&[(1, 2), (2, 3), (3, 4), (4, 1)]);
    assert_eq!(path_count_lcm(&square), Some(2));
    let path = adjacency_list(&[(1, 2), (2, 3)]);
    assert_eq!(path_count_lcm(&path), Some(1));
    // Two nodes joined by three ways of two hops and, further on, by two.
    let mixed = adjacency_list(&[(1, 2), (1, 3), (1, 4), (2, 5), (3, 5), (4, 5), (5, 6), (5, 7), (6, 8), (7, 8)]);
    assert_eq!(path_count_lcm(&mixed), Some(6));
}

#[test]
fn dependencies_are_added_per_source() {
    let graph = adjacency_list(&[(1, 2), (2, 3)]);
    let mut totals: HashMap<u32, u128> = HashMap::new();
    for v in 1..=3u32 {
        totals.insert(v, 0);
    }
    assert!(add_dependencies(1, &graph, 1, &mut totals));
    assert_eq!(totals[&2], 1);
    assert_eq!(totals[&1], 0);
    assert_eq!(totals[&3], 0);
    assert!(add_dependencies(3, &graph, 1, &mut totals));
    assert_eq!(totals[&2], 2);
    let sums = dependency_totals(&graph, 1).unwrap();
    assert_eq!(sums[&2], 2);
    assert_eq!(sums[&1], 0);
}

#[test]
fn a_total_that_does_not_fit_is_refused() {
    let graph = adjacency_list(&[(1, 2), (2, 3)]);
    let mut totals: HashMap<u32, u128> = HashMap::new();
    totals.insert(1, 0);
    totals.insert(2, u128::MAX);
    totals.insert(3, 0);
    assert!(!add_dependencies(1, &graph, 1, &mut totals));
}
