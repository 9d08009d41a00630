//! Plain counts over a graph and its edge list.

use crate::graph::{degree, key_list};
use std::collections::HashMap;
use vstd::prelude::*;

verus! {

/// The number of pairs of the list whose two ends are equal.
pub open spec fn self_loops(edges: Seq<(u32, u32)>) -> nat
    decreases edges.len(),
{
    if edges.len() == 0 {
        0
    } else {
        self_loops(edges.drop_last()) + if edges.last().0 == edges.last().1 {
            1nat
        } else {
            0nat
        }
    }
}

/// Every node has all the other nodes as neighbours, as many as there are.
pub open spec fn complete(g: Map<u32, Vec<u32>>) -> bool {
    forall|v: u32| #[trigger] g.contains_key(v) ==> degree(g, v) == g.dom().len() - 1
}

/// The number of pairs of the list whose two ends are equal.
pub fn count_self_loops(edges: &[(u32, u32)]) -> (count: usize)
    ensures
        count == self_loops(edges@),
{
    let mut count: usize = 0;
    let mut i: usize = 0;
    while i < edges.len()
        invariant
            i <= edges@.len(),
            count == self_loops(edges@.take(i as int)),
            count <= i,
        decreases edges.len() - i,
    {
        proof {
            assert(edges@.take(i + 1).drop_last() == edges@.take(i as int));
        }
        let (from, to) = edges[i];
        if from == to {
            count += 1;
        }
        i += 1;
    }
    proof {
        assert(edges@.take(i as int) == edges@);
    }
    count
}

/// The node with the greatest identifier; the empty graph has none.
pub fn highest_node(graph: &HashMap<u32, Vec<u32>>) -> (highest: Option<u32>)
    ensures
        highest is None <==> graph@.dom().len() == 0,
        highest matches Some(node) ==> graph@.contains_key(node) && forall|other: u32| #[trigger]
            graph@.contains_key(other) ==> other <= node,
{
    broadcast use vstd::std_specs::hash::group_hash_axioms;

    let nodes = key_list(graph);
    let mut highest: Option<u32> = None;
    let mut i: usize = 0;
    while i < nodes.len()
        invariant
            i <= nodes@.len(),
            highest is None <==> i == 0,
            highest matches Some(best) ==> nodes@.contains(best) && forall|k: int|
                0 <= k < i ==> #[trigger] nodes@[k] <= best,
        decreases nodes.len() - i,
    {
        let node = nodes[i];
        assert(nodes@.contains(node));
        let better = match highest {
            None => true,
            Some(best) => node > best,
        };
        if better {
            highest = Some(node);
        }
        i += 1;
    }
    proof {
        if let Some(best) = highest {
            assert forall|other: u32| #[trigger] graph@.contains_key(other) implies other
                <= best by {
                assert(nodes@.contains(other));
                let k = choose|k: int| 0 <= k < nodes@.len() && nodes@[k] == other;
                assert(nodes@[k] <= best);
            }
            assert(graph@.dom().contains(best));
        }
    }
    highest
}

/// The node with the least identifier; the empty graph has none.
pub fn lowest_node(graph: &HashMap<u32, Vec<u32>>) -> (lowest: Option<u32>)
    ensures
        lowest is None <==> graph@.dom().len() == 0,
        lowest matches Some(node) ==> graph@.contains_key(node) && forall|other: u32| #[trigger]
            graph@.contains_key(other) ==> node <= other,
{
    broadcast use vstd::std_specs::hash::group_hash_axioms;

    let nodes = key_list(graph);
    let mut lowest: Option<u32> = None;
    let mut i: usize = 0;
    while i < nodes.len()
        invariant
            i <= nodes@.len(),
            lowest is None <==> i == 0,
            lowest matches Some(best) ==> nodes@.contains(best) && forall|k: int|
                0 <= k < i ==> best <= #[trigger] nodes@[k],
        decreases nodes.len() - i,
    {
        let node = nodes[i];
        assert(nodes@.contains(node));
        let better = match lowest {
            None => true,
            Some(best) => node < best,
        };
        if better {
            lowest = Some(node);
        }
        i += 1;
    }
    proof {
        if let Some(best) = lowest {
            assert forall|other: u32| #[trigger] graph@.contains_key(other) implies best
                <= other by {
                assert(nodes@.contains(other));
                let k = choose|k: int| 0 <= k < nodes@.len() && nodes@[k] == other;
                assert(best <= nodes@[k]);
            }
            assert(graph@.dom().contains(best));
        }
    }
    lowest
}

/// The nodes that have exactly one neighbour, each once, in no particular
/// order.
pub fn single_connection_nodes(graph: &HashMap<u32, Vec<u32>>) -> (single: Vec<u32>)
    ensures
        single@.no_duplicates(),
        forall|v: u32| single@.contains(v) <==> graph@.contains_key(v) && degree(graph@, v) == 1,
{
    broadcast use vstd::std_specs::hash::group_hash_axioms;

    let nodes = key_list(graph);
    let mut single: Vec<u32> = Vec::new();
    let mut i: usize = 0;
    while i < nodes.len()
        invariant
            i <= nodes@.len(),
            nodes@.no_duplicates(),
            forall|k: u32| nodes@.contains(k) <==> graph@.contains_key(k),
            single@.no_duplicates(),
            forall|v: u32|
                single@.contains(v) <==> exists|k: int|
                    0 <= k < i && nodes@[k] == v && degree(graph@, v) == 1,
        decreases nodes.len() - i,
    {
        let node = nodes[i];
        assert(nodes@.contains(node));
        let ghost before = single@;
        if graph.get(&node).unwrap().len() == 1 {
            proof {
                if before.contains(node) {
                    let k = choose|k: int| 0 <= k < i && nodes@[k] == node;
                    assert(nodes@[k] == nodes@[i as int]);
                }
            }
            single.push(node);
            proof {
                assert forall|a: int, b: int| 0 <= a < b < single@.len() implies single@[a]
                    != single@[b] by {
                    if b == before.len() {
                        assert(before[a] == single@[a]);
                        assert(before.contains(single@[a]));
                    } else {
                        assert(before[a] == single@[a] && before[b] == single@[b]);
                    }
                }
            }
        }
        proof {
            assert forall|v: u32|
                single@.contains(v) <==> exists|k: int|
                    0 <= k < i + 1 && nodes@[k] == v && degree(graph@, v) == 1 by {
                if single@.contains(v) {
                    let j = choose|j: int| 0 <= j < single@.len() && single@[j] == v;
                    if j < before.len() {
                        assert(before[j] == v);
                        assert(before.contains(v));
                        let k = choose|k: int|
                            0 <= k < i && nodes@[k] == v && degree(graph@, v) == 1;
                        assert(0 <= k < i + 1 && nodes@[k] == v);
                    } else {
                        assert(0 <= i < i + 1 && nodes@[i as int] == v);
                    }
                }
                if exists|k: int| 0 <= k < i + 1 && nodes@[k] == v && degree(graph@, v) == 1 {
                    let k = choose|k: int|
                        0 <= k < i + 1 && nodes@[k] == v && degree(graph@, v) == 1;
                    if k < i {
                        assert(before.contains(v));
                        let j = choose|j: int| 0 <= j < before.len() && before[j] == v;
                        assert(single@[j] == v);
                    } else {
                        assert(single@[before.len() as int] == v);
                    }
                }
            }
        }
        i += 1;
    }
    proof {
        assert forall|v: u32| single@.contains(v) <==> graph@.contains_key(v) && degree(
            graph@,
            v,
        ) == 1 by {
            if single@.contains(v) {
                let k = choose|k: int| 0 <= k < i && nodes@[k] == v && degree(graph@, v) == 1;
                assert(nodes@.contains(v));
            }
            if graph@.contains_key(v) && degree(graph@, v) == 1 {
                assert(nodes@.contains(v));
                let k = choose|k: int| 0 <= k < nodes@.len() && nodes@[k] == v;
                assert(0 <= k < i && nodes@[k] == v && degree(graph@, v) == 1);
            }
        }
    }
    single
}

/// Whether every node has as many neighbours as there are other nodes.
pub fn is_complete(graph: &HashMap<u32, Vec<u32>>) -> (whole: bool)
    ensures
        whole == complete(graph@),
{
    broadcast use vstd::std_specs::hash::group_hash_axioms;

    let nodes = key_list(graph);
    let count = nodes.len();
    let mut i: usize = 0;
    while i < nodes.len()
        invariant
            i <= nodes@.len(),
            count == graph@.dom().len(),
            forall|k: u32| nodes@.contains(k) <==> graph@.contains_key(k),
            forall|k: int|
                0 <= k < i ==> degree(graph@, #[trigger] nodes@[k]) == graph@.dom().len() - 1,
        decreases nodes.len() - i,
    {
        let node = nodes[i];
        assert(nodes@.contains(node));
        if graph.get(&node).unwrap().len() != count - 1 {
            return false;
        }
        i += 1;
    }
    proof {
        assert forall|v: u32| #[trigger] graph@.contains_key(v) implies degree(graph@, v)
            == graph@.dom().len() - 1 by {
            assert(nodes@.contains(v));
            let k = choose|k: int| 0 <= k < nodes@.len() && nodes@[k] == v;
            assert(degree(graph@, nodes@[k]) == graph@.dom().len() - 1);
        }
    }
    true
}

} // verus!
