//! Degree centrality and other measures that read the degrees alone.

use crate::graph::{adjacent, degree, key_list, well_formed};
use crate::paths::lemma_node_count_bound;
use crate::ratio::{lemma_value_bounds, Ratio};
use crate::sums::{
    id_count, lemma_sum_below_add, lemma_sum_below_const, lemma_sum_below_eq, lemma_sum_pairs_swap,
    lemma_sum_seq_all, lemma_sum_seq_ones, lemma_sum_seq_step, row, row_sums, sum_all, sum_pairs,
    sum_seq,
};
use std::collections::HashMap;
use vstd::prelude::*;

verus! {

/// The degree centrality of `node`: its degree over the number of other
/// nodes. In a graph of fewer than two nodes it is zero.
pub open spec fn degree_centrality(g: Map<u32, Vec<u32>>, node: u32) -> Ratio {
    if g.dom().len() <= 1 {
        Ratio { num: 0, den: 1 }
    } else {
        Ratio { num: degree(g, node) as u128, den: (g.dom().len() - 1) as u128 }
    }
}

/// The degree of each node of the graph, zero for other identifiers.
pub open spec fn degrees(g: Map<u32, Vec<u32>>) -> spec_fn(u32) -> int {
    |u: u32| degree(g, u) as int
}

/// The sum of the degrees of all nodes.
pub open spec fn degree_sum(g: Map<u32, Vec<u32>>) -> int {
    sum_all(degrees(g))
}

/// The density of the graph: the sum of the degrees, which counts every edge
/// twice, over the number of ordered pairs of distinct nodes. In a graph of
/// fewer than two nodes it is zero.
pub open spec fn density(g: Map<u32, Vec<u32>>) -> Ratio {
    if g.dom().len() <= 1 {
        Ratio { num: 0, den: 1 }
    } else {
        Ratio {
            num: degree_sum(g) as u128,
            den: (g.dom().len() * (g.dom().len() - 1)) as u128,
        }
    }
}

/// `(da, a)` comes before `(db, b)` or is equal to it, by degree first and
/// by identifier among equal degrees.
pub open spec fn ranks_at_most(da: nat, a: u32, db: nat, b: u32) -> bool {
    da < db || (da == db && a <= b)
}

/// In a well-formed graph no node has more neighbours than there are other
/// nodes, so that no degree centrality is above one.
pub proof fn lemma_degree_bound(g: Map<u32, Vec<u32>>, u: u32)
    requires
        well_formed(g),
        g.contains_key(u),
    ensures
        degree(g, u) <= g.dom().len() - 1,
        degree_centrality(g, u).num <= degree_centrality(g, u).den,
        0real <= degree_centrality(g, u).value() <= 1real,
{
    let list = g[u]@;
    let others = g.dom().remove(u);
    list.unique_seq_to_set();
    assert forall|v: u32| list.to_set().contains(v) implies others.contains(v) by {
        assert(list.contains(v));
        assert(adjacent(g, u, v));
        assert(adjacent(g, v, u));
    }
    vstd::set_lib::lemma_len_subset(list.to_set(), others);
    lemma_node_count_bound(g.dom());
    lemma_value_bounds(degree_centrality(g, u));
}

/// The degree centrality of every node.
pub fn calculate_degree_centrality(graph: &HashMap<u32, Vec<u32>>) -> (scores: HashMap<u32, Ratio>)
    ensures
        scores@.dom() == graph@.dom(),
        forall|node: u32| #[trigger]
            scores@.contains_key(node) ==> scores@[node] == degree_centrality(graph@, node),
        forall|node: u32| #[trigger] scores@.contains_key(node) ==> scores@[node].wf(),
{
    broadcast use vstd::std_specs::hash::group_hash_axioms;

    let nodes = key_list(graph);
    let count = nodes.len();
    let mut scores: HashMap<u32, Ratio> = HashMap::new();
    let mut i: usize = 0;
    while i < nodes.len()
        invariant
            i <= nodes@.len(),
            count == graph@.dom().len(),
            forall|k: u32| nodes@.contains(k) <==> graph@.contains_key(k),
            forall|s: u32|
                scores@.contains_key(s) <==> exists|k: int| 0 <= k < i && nodes@[k] == s,
            forall|node: u32| #[trigger]
                scores@.contains_key(node) ==> scores@[node] == degree_centrality(graph@, node),
            forall|node: u32| #[trigger] scores@.contains_key(node) ==> scores@[node].wf(),
        decreases nodes.len() - i,
    {
        let node = nodes[i];
        assert(nodes@.contains(node));
        let score = if count <= 1 {
            Ratio { num: 0, den: 1 }
        } else {
            let neighbours = graph.get(&node).unwrap();
            Ratio { num: neighbours.len() as u128, den: (count - 1) as u128 }
        };
        let ghost before = scores@;
        scores.insert(node, score);
        proof {
            assert forall|s: u32|
                scores@.contains_key(s) <==> exists|k: int| 0 <= k < i + 1 && nodes@[k] == s by {
                if before.contains_key(s) {
                    let k = choose|k: int| 0 <= k < i && nodes@[k] == s;
                    assert(0 <= k < i + 1 && nodes@[k] == s);
                }
                if s == node {
                    assert(0 <= i < i + 1 && nodes@[i as int] == s);
                }
            }
        }
        i += 1;
    }
    proof {
        assert(scores@.dom() =~= graph@.dom()) by {
            assert forall|s: u32| scores@.contains_key(s) <==> graph@.contains_key(s) by {
                if graph@.contains_key(s) {
                    assert(nodes@.contains(s));
                }
            }
        }
    }
    scores
}

/// The node of least degree; among several, the one with the least
/// identifier. The empty graph has none.
pub fn min_degree_node(adj_list: &HashMap<u32, Vec<u32>>) -> (least: Option<u32>)
    ensures
        least is None <==> adj_list@.dom().len() == 0,
        least matches Some(node) ==> adj_list@.contains_key(node) && forall|other: u32| #[trigger]
            adj_list@.contains_key(other) ==> ranks_at_most(
                degree(adj_list@, node),
                node,
                degree(adj_list@, other),
                other,
            ),
{
    broadcast use vstd::std_specs::hash::group_hash_axioms;

    let nodes = key_list(adj_list);
    let mut least: Option<(usize, u32)> = None;
    let mut i: usize = 0;
    while i < nodes.len()
        invariant
            i <= nodes@.len(),
            forall|k: u32| nodes@.contains(k) <==> adj_list@.contains_key(k),
            least is None <==> i == 0,
            least matches Some(best) ==> adj_list@.contains_key(best.1) && best.0 == degree(
                adj_list@,
                best.1,
            ) && forall|k: int|
                0 <= k < i ==> ranks_at_most(
                    best.0 as nat,
                    best.1,
                    degree(adj_list@, #[trigger] nodes@[k]),
                    nodes@[k],
                ),
        decreases nodes.len() - i,
    {
        let node = nodes[i];
        assert(nodes@.contains(node));
        let size = adj_list.get(&node).unwrap().len();
        let better = match least {
            None => true,
            Some(best) => size < best.0 || (size == best.0 && node <= best.1),
        };
        if better {
            least = Some((size, node));
        }
        i += 1;
    }
    match least {
        None => {
            assert(adj_list@.dom().len() == 0);
            None
        },
        Some(best) => {
            proof {
                assert forall|other: u32| #[trigger] adj_list@.contains_key(other) implies ranks_at_most(
                    best.0 as nat,
                    best.1,
                    degree(adj_list@, other),
                    other,
                ) by {
                    assert(nodes@.contains(other));
                    let k = choose|k: int| 0 <= k < nodes@.len() && nodes@[k] == other;
                    assert(ranks_at_most(
                        best.0 as nat,
                        best.1,
                        degree(adj_list@, nodes@[k]),
                        nodes@[k],
                    ));
                }
                assert(adj_list@.dom().contains(best.1));
            }
            Some(best.1)
        },
    }
}

/// The node of greatest degree; among several, the one with the greatest
/// identifier. The empty graph has none.
pub fn max_degree_node(adj_list: &HashMap<u32, Vec<u32>>) -> (greatest: Option<u32>)
    ensures
        greatest is None <==> adj_list@.dom().len() == 0,
        greatest matches Some(node) ==> adj_list@.contains_key(node) && forall|other: u32| #[trigger]
            adj_list@.contains_key(other) ==> ranks_at_most(
                degree(adj_list@, other),
                other,
                degree(adj_list@, node),
                node,
            ),
{
    broadcast use vstd::std_specs::hash::group_hash_axioms;

    let nodes = key_list(adj_list);
    let mut greatest: Option<(usize, u32)> = None;
    let mut i: usize = 0;
    while i < nodes.len()
        invariant
            i <= nodes@.len(),
            forall|k: u32| nodes@.contains(k) <==> adj_list@.contains_key(k),
            greatest is None <==> i == 0,
            greatest matches Some(best) ==> adj_list@.contains_key(best.1) && best.0 == degree(
                adj_list@,
                best.1,
            ) && forall|k: int|
                0 <= k < i ==> ranks_at_most(
                    degree(adj_list@, #[trigger] nodes@[k]),
                    nodes@[k],
                    best.0 as nat,
                    best.1,
                ),
        decreases nodes.len() - i,
    {
        let node = nodes[i];
        assert(nodes@.contains(node));
        let size = adj_list.get(&node).unwrap().len();
        let better = match greatest {
            None => true,
            Some(best) => size > best.0 || (size == best.0 && node >= best.1),
        };
        if better {
            greatest = Some((size, node));
        }
        i += 1;
    }
    match greatest {
        None => {
            assert(adj_list@.dom().len() == 0);
            None
        },
        Some(best) => {
            proof {
                assert forall|other: u32| #[trigger] adj_list@.contains_key(other) implies ranks_at_most(
                    degree(adj_list@, other),
                    other,
                    best.0 as nat,
                    best.1,
                ) by {
                    assert(nodes@.contains(other));
                    let k = choose|k: int| 0 <= k < nodes@.len() && nodes@[k] == other;
                    assert(ranks_at_most(
                        degree(adj_list@, nodes@[k]),
                        nodes@[k],
                        best.0 as nat,
                        best.1,
                    ));
                }
                assert(adj_list@.dom().contains(best.1));
            }
            Some(best.1)
        },
    }
}

/// One where `u` is joined to `v`, zero elsewhere.
pub open spec fn is_arc(g: Map<u32, Vec<u32>>) -> spec_fn(u32, u32) -> int {
    |u: u32, v: u32|
        if adjacent(g, u, v) {
            1int
        } else {
            0int
        }
}

/// One where `u` is joined to a node `v` of greater identifier, zero
/// elsewhere: every edge of an undirected graph is counted once.
pub open spec fn is_edge(g: Map<u32, Vec<u32>>) -> spec_fn(u32, u32) -> int {
    |u: u32, v: u32|
        if adjacent(g, u, v) && u < v {
            1int
        } else {
            0int
        }
}

/// The number of edges of an undirected graph.
pub open spec fn edge_count(g: Map<u32, Vec<u32>>) -> int {
    sum_pairs(is_edge(g))
}

/// Where no neighbour is listed twice, the degree of a node is the number of
/// nodes that it is joined to.
pub proof fn lemma_degree_counts_arcs(g: Map<u32, Vec<u32>>, u: u32)
    requires
        g.contains_key(u) ==> g[u]@.no_duplicates(),
    ensures
        degree(g, u) == sum_all(row(is_arc(g), u)),
{
    let f = row(is_arc(g), u);
    if g.contains_key(u) {
        let list = g[u]@;
        lemma_sum_seq_ones(f, list);
        lemma_sum_seq_all(f, list);
    } else {
        lemma_sum_below_const(f, 0, id_count());
    }
}

/// The handshake law: in a well-formed graph the degrees sum to twice the
/// number of edges.
pub proof fn lemma_handshake(g: Map<u32, Vec<u32>>)
    requires
        well_formed(g),
    ensures
        degree_sum(g) == 2 * edge_count(g),
{
    let up = is_edge(g);
    let down = |u: u32, v: u32| up(v, u);
    let n = id_count();
    lemma_sum_pairs_swap(up, down);
    assert forall|u: u32| u < n implies #[trigger] degrees(g)(u) == row_sums(up, n)(u) + row_sums(
        down,
        n,
    )(u) by {
        lemma_degree_counts_arcs(g, u);
        assert forall|v: u32| v < n implies #[trigger] row(is_arc(g), u)(v) == row(up, u)(v) + row(
            down,
            u,
        )(v) by {
            if adjacent(g, u, v) {
                assert(adjacent(g, v, u));
                assert(u != v);
            }
            if adjacent(g, v, u) {
                assert(adjacent(g, u, v));
            }
        }
        lemma_sum_below_add(row(up, u), row(down, u), row(is_arc(g), u), n);
    }
    lemma_sum_below_add(row_sums(up, n), row_sums(down, n), degrees(g), n);
}

/// The numerators of the degree centralities of a well-formed graph of two
/// nodes or more sum to twice the number of edges, over the one denominator
/// that they all have: the number of nodes less one.
pub proof fn lemma_degree_centrality_sum(g: Map<u32, Vec<u32>>)
    requires
        well_formed(g),
        g.dom().len() > 1,
    ensures
        sum_all(|u: u32| degree_centrality(g, u).num as int) == 2 * edge_count(g),
        forall|u: u32| degree_centrality(g, u).den == g.dom().len() - 1,
{
    lemma_handshake(g);
    lemma_node_count_bound(g.dom());
    let nums = |u: u32| degree_centrality(g, u).num as int;
    assert forall|u: u32| u < id_count() implies #[trigger] nums(u) == degrees(g)(u) by {
        if g.contains_key(u) {
            lemma_degree_bound(g, u);
        }
    }
    lemma_sum_below_eq(nums, degrees(g), id_count());
}

/// The density of the graph: the number of ordered pairs of adjacent nodes
/// over the number of ordered pairs of distinct nodes.
pub fn graph_density(adj_list: &HashMap<u32, Vec<u32>>) -> (share: Ratio)
    ensures
        share == density(adj_list@),
        share.wf(),
{
    broadcast use vstd::std_specs::hash::group_hash_axioms;

    let nodes = key_list(adj_list);
    let ghost g = adj_list@;
    proof {
        lemma_node_count_bound(g.dom());
        lemma_sum_seq_all(degrees(g), nodes@);
        assert(nodes@.take(nodes@.len() as int) == nodes@);
    }
    let mut total: u128 = 0;
    let mut i: usize = 0;
    while i < nodes.len()
        invariant
            i <= nodes@.len() <= 0x1_0000_0000,
            g == adj_list@,
            forall|k: u32| nodes@.contains(k) <==> g.contains_key(k),
            total == sum_seq(degrees(g), nodes@.take(i as int)),
            total <= i * 0x1_0000_0000_0000_0000,
        decreases nodes.len() - i,
    {
        let node = nodes[i];
        assert(nodes@.contains(node));
        let size = adj_list.get(&node).unwrap().len();
        proof {
            lemma_sum_seq_step(degrees(g), nodes@, i as int);
            assert((i + 1) * 0x1_0000_0000_0000_0000 == i * 0x1_0000_0000_0000_0000
                + 0x1_0000_0000_0000_0000) by (nonlinear_arith);
            assert((i + 1) * 0x1_0000_0000_0000_0000 <= 0x1_0000_0000
                * 0x1_0000_0000_0000_0000) by (nonlinear_arith)
                requires
                    i + 1 <= 0x1_0000_0000,
            ;
        }
        total = total + size as u128;
        i += 1;
    }
    let count = nodes.len() as u128;
    if count <= 1 {
        Ratio { num: 0, den: 1 }
    } else {
        assert(count * (count - 1) <= 0x1_0000_0000 * 0x1_0000_0000) by (nonlinear_arith)
            requires
                1 < count <= 0x1_0000_0000,
        ;
        assert(count * (count - 1) > 0) by (nonlinear_arith)
            requires
                1 < count,
        ;
        Ratio { num: total, den: count * (count - 1) }
    }
}

} // verus!
