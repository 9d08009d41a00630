//! The adjacency map of an undirected simple graph and how it is built.

use std::collections::HashMap;
use vstd::prelude::*;
use vstd::std_specs::iter::IteratorSpec;

verus! {

/// Adjacency map: every node is a key, its value lists the node's neighbours.
pub type Graph = HashMap<u32, Vec<u32>>;

/// `v` is listed as a neighbour of `u`.
pub open spec fn adjacent(g: Map<u32, Vec<u32>>, u: u32, v: u32) -> bool {
    g.contains_key(u) && g[u]@.contains(v)
}

/// Number of neighbours listed for `u`; zero for a node that is not in the graph.
pub open spec fn degree(g: Map<u32, Vec<u32>>, u: u32) -> nat {
    if g.contains_key(u) {
        g[u]@.len()
    } else {
        0
    }
}

/// The invariant of a graph built from an edge list: adjacency is symmetric,
/// every neighbour is itself a node, no node is its own neighbour, and no
/// neighbour is listed twice.
pub open spec fn well_formed(g: Map<u32, Vec<u32>>) -> bool {
    &&& g.dom().finite()
    &&& forall|u: u32, v: u32| #[trigger] adjacent(g, u, v) ==> adjacent(g, v, u)
    &&& forall|u: u32, v: u32| #[trigger] adjacent(g, u, v) ==> u != v
    &&& forall|u: u32| #[trigger] g.contains_key(u) ==> g[u]@.no_duplicates()
}

/// The pair at position `i` joins `u` to `v`, in either direction.
pub open spec fn joins(edges: Seq<(u32, u32)>, i: int, u: u32, v: u32) -> bool {
    0 <= i < edges.len() && (edges[i] == (u, v) || edges[i] == (v, u))
}

/// Some pair of the list joins `u` to `v`.
pub open spec fn linked(edges: Seq<(u32, u32)>, u: u32, v: u32) -> bool {
    exists|i: int| joins(edges, i, u, v)
}

/// `u` occurs in a pair of the list whose two ends differ.
pub open spec fn is_endpoint(edges: Seq<(u32, u32)>, u: u32) -> bool {
    exists|v: u32| u != v && #[trigger] linked(edges, u, v)
}

/// `s` with `x` appended unless it is already there.
pub open spec fn push_new(s: Seq<u32>, x: u32) -> Seq<u32> {
    if s.contains(x) {
        s
    } else {
        s.push(x)
    }
}

/// The neighbours of `u` in the order in which the edge list first names
/// them. A pair whose two ends are equal is skipped; a repeated pair adds
/// nothing.
pub open spec fn neighbours(edges: Seq<(u32, u32)>, u: u32) -> Seq<u32>
    decreases edges.len(),
{
    if edges.len() == 0 {
        Seq::empty()
    } else {
        let e = edges.last();
        let rest = neighbours(edges.drop_last(), u);
        if e.0 == e.1 {
            rest
        } else if e.0 == u {
            push_new(rest, e.1)
        } else if e.1 == u {
            push_new(rest, e.0)
        } else {
            rest
        }
    }
}

/// The neighbour list of `u` holds exactly the nodes other than `u` that some
/// pair joins to `u`, each of them once.
pub proof fn lemma_neighbours(edges: Seq<(u32, u32)>, u: u32)
    ensures
        neighbours(edges, u).no_duplicates(),
        forall|v: u32| #[trigger]
            neighbours(edges, u).contains(v) <==> (u != v && linked(edges, u, v)),
    decreases edges.len(),
{
    if edges.len() == 0 {
        assert forall|v: u32| #[trigger]
            neighbours(edges, u).contains(v) <==> (u != v && linked(edges, u, v)) by {
            if linked(edges, u, v) {
                let i = choose|i: int| joins(edges, i, u, v);
            }
        }
    } else {
        let e = edges.last();
        let init = edges.drop_last();
        let rest = neighbours(init, u);
        lemma_neighbours(init, u);
        let n = edges.len() - 1;
        assert forall|v: u32| #[trigger]
            neighbours(edges, u).contains(v) <==> (u != v && linked(edges, u, v)) by {
            if neighbours(edges, u).contains(v) {
                if rest.contains(v) {
                    let i = choose|i: int| joins(init, i, u, v);
                    assert(joins(edges, i, u, v));
                } else {
                    let k = choose|k: int|
                        0 <= k < neighbours(edges, u).len() && neighbours(edges, u)[k] == v;
                    assert(k == rest.len());
                    assert(joins(edges, n, u, v));
                }
            }
            if u != v && linked(edges, u, v) {
                let i = choose|i: int| joins(edges, i, u, v);
                if i < n {
                    assert(joins(init, i, u, v));
                    assert(linked(init, u, v));
                    assert(rest.contains(v));
                    let k = choose|k: int| 0 <= k < rest.len() && rest[k] == v;
                    assert(neighbours(edges, u)[k] == v);
                } else {
                    let w = if e.0 == u { e.1 } else { e.0 };
                    assert(w == v);
                    if !rest.contains(v) {
                        assert(neighbours(edges, u) == rest.push(v));
                        assert(neighbours(edges, u)[rest.len() as int] == v);
                    } else {
                        let k = choose|k: int| 0 <= k < rest.len() && rest[k] == v;
                        assert(neighbours(edges, u)[k] == v);
                    }
                }
            }
        }
    }
}

/// A graph that holds exactly what the edge list says.
pub open spec fn built_from(g: Map<u32, Vec<u32>>, edges: Seq<(u32, u32)>) -> bool {
    &&& g.dom().finite()
    &&& forall|u: u32| #[trigger] g.contains_key(u) <==> is_endpoint(edges, u)
    &&& forall|u: u32| #[trigger] g.contains_key(u) ==> g[u]@ == neighbours(edges, u)
}

/// A graph built from an edge list is well formed, and two nodes are adjacent
/// in it exactly when they differ and some pair joins them.
pub proof fn lemma_built_graph(g: Map<u32, Vec<u32>>, edges: Seq<(u32, u32)>)
    requires
        built_from(g, edges),
    ensures
        well_formed(g),
        forall|u: u32, v: u32| #[trigger] adjacent(g, u, v) <==> (u != v && linked(edges, u, v)),
{
    assert forall|u: u32, v: u32| #[trigger]
        adjacent(g, u, v) <==> (u != v && linked(edges, u, v)) by {
        lemma_neighbours(edges, u);
        if u != v && linked(edges, u, v) {
            assert(is_endpoint(edges, u));
            assert(g.contains_key(u));
            assert(neighbours(edges, u).contains(v));
        }
        if adjacent(g, u, v) {
            assert(g.contains_key(u));
            assert(neighbours(edges, u).contains(v));
        }
    }
    assert forall|u: u32, v: u32| #[trigger] adjacent(g, u, v) implies adjacent(g, v, u) by {
        let i = choose|i: int| joins(edges, i, u, v);
        assert(joins(edges, i, v, u));
        assert(linked(edges, v, u));
    }
    assert forall|u: u32| #[trigger] g.contains_key(u) implies g[u]@.no_duplicates() by {
        lemma_neighbours(edges, u);
    }
}

/// The neighbours listed for `u`; none for a node that is not in the graph.
pub open spec fn listed(g: Map<u32, Vec<u32>>, u: u32) -> Seq<u32> {
    if g.contains_key(u) {
        g[u]@
    } else {
        Seq::empty()
    }
}

/// Whether `x` occurs in `list`.
pub fn contains(list: &Vec<u32>, x: u32) -> (found: bool)
    ensures
        found == list@.contains(x),
{
    let mut i: usize = 0;
    while i < list.len()
        invariant
            i <= list.len(),
            forall|j: int| 0 <= j < i ==> list@[j] != x,
        decreases list.len() - i,
    {
        if list[i] == x {
            return true;
        }
        i += 1;
    }
    false
}

/// Records `v` as a neighbour of `u`, making `u` a node if it is none yet.
/// Nothing changes if `v` is already listed.
fn add_neighbour(g: &mut Graph, u: u32, v: u32)
    ensures
        final(g)@.dom() == old(g)@.dom().insert(u),
        final(g)@[u]@ == push_new(listed(old(g)@, u), v),
        forall|k: u32| k != u && old(g)@.contains_key(k) ==> final(g)@[k] == old(g)@[k],
{
    broadcast use vstd::std_specs::hash::group_hash_axioms;

    let list = g.entry(u).or_insert(Vec::new());
    if !contains(list, v) {
        list.push(v);
    }
}

/// Extending the edge list by one pair whose ends differ adds both ends as
/// nodes and changes no other node's neighbours.
proof fn lemma_extend(edges: Seq<(u32, u32)>, n: int)
    requires
        0 <= n < edges.len(),
    ensures
        forall|u: u32|
            is_endpoint(edges.take(n + 1), u) <==> (is_endpoint(edges.take(n), u) || (edges[n].0
                != edges[n].1 && (u == edges[n].0 || u == edges[n].1))),
        edges.take(n + 1).drop_last() == edges.take(n),
        edges.take(n + 1).last() == edges[n],
{
    let long = edges.take(n + 1);
    let short = edges.take(n);
    let e = edges[n];
    assert(long.drop_last() == short);
    assert forall|u: u32|
        is_endpoint(long, u) <==> (is_endpoint(short, u) || (e.0 != e.1 && (u == e.0 || u
            == e.1))) by {
        if is_endpoint(long, u) {
            let v = choose|v: u32| u != v && #[trigger] linked(long, u, v);
            let i = choose|i: int| joins(long, i, u, v);
            if i < n {
                assert(joins(short, i, u, v));
                assert(linked(short, u, v));
            }
        }
        if is_endpoint(short, u) {
            let v = choose|v: u32| u != v && #[trigger] linked(short, u, v);
            let i = choose|i: int| joins(short, i, u, v);
            assert(joins(long, i, u, v));
            assert(linked(long, u, v));
        }
        if e.0 != e.1 && (u == e.0 || u == e.1) {
            let v = if u == e.0 { e.1 } else { e.0 };
            assert(joins(long, n, u, v));
            assert(linked(long, u, v));
        }
    }
}

/// Builds the undirected graph of an edge list.
///
/// Each pair makes its two ends neighbours of one another. A pair whose two
/// ends are equal is skipped and adds no node; a pair that repeats an
/// earlier one, in either direction, adds nothing. The empty list gives the
/// empty graph.
pub fn adjacency_list(edges: &[(u32, u32)]) -> (graph: Graph)
    ensures
        built_from(graph@, edges@),
        well_formed(graph@),
        forall|u: u32, v: u32| #[trigger]
            adjacent(graph@, u, v) <==> (u != v && linked(edges@, u, v)),
{
    let mut graph: Graph = HashMap::new();
    let mut i: usize = 0;
    proof {
        assert forall|u: u32| !is_endpoint(edges@.take(0), u) by {
            if is_endpoint(edges@.take(0), u) {
                let v = choose|v: u32| u != v && #[trigger] linked(edges@.take(0), u, v);
                let k = choose|k: int| joins(edges@.take(0), k, u, v);
            }
        }
    }
    while i < edges.len()
        invariant
            i <= edges.len(),
            built_from(graph@, edges@.take(i as int)),
        decreases edges.len() - i,
    {
        let (from, to) = edges[i];
        proof {
            lemma_extend(edges@, i as int);
        }
        if from != to {
            let ghost before = graph@;
            add_neighbour(&mut graph, from, to);
            let ghost middle = graph@;
            add_neighbour(&mut graph, to, from);
            proof {
                let long = edges@.take(i + 1);
                let short = edges@.take(i as int);
                assert forall|u: u32| #[trigger] graph@.contains_key(u) implies graph@[u]@
                    == neighbours(long, u) by {
                    if u == to {
                        assert(listed(middle, to) == listed(before, to));
                    } else if u == from {
                        assert(graph@[u] == middle[u]);
                    } else {
                        assert(before.contains_key(u));
                        assert(middle[u] == before[u]);
                    }
                    if !before.contains_key(u) {
                        assert(!is_endpoint(short, u));
                        lemma_neighbours(short, u);
                        assert(neighbours(short, u) =~= Seq::empty()) by {
                            if neighbours(short, u).len() > 0 {
                                let w = neighbours(short, u)[0];
                                assert(neighbours(short, u).contains(w));
                            }
                        }
                    }
                }
            }
        }
        i += 1;
    }
    proof {
        assert(edges@.take(i as int) == edges@);
        lemma_built_graph(graph@, edges@);
    }
    graph
}

/// The keys of a map from nodes, each once, in no particular order.
pub fn key_list<V>(map: &HashMap<u32, V>) -> (keys: Vec<u32>)
    ensures
        keys@.no_duplicates(),
        keys@.to_set() == map@.dom(),
        keys@.len() == map@.dom().len(),
        forall|k: u32| keys@.contains(k) <==> map@.contains_key(k),
{
    broadcast use vstd::std_specs::hash::group_hash_axioms;

    let mut keys: Vec<u32> = Vec::new();
    let ghost walked = map.keys().remaining();
    for key in iter: map.keys()
        invariant
            iter.seq() == walked,
            keys@.len() == iter.index(),
            forall|i: int| 0 <= i < keys@.len() ==> keys@[i] == *iter.seq()[i],
    {
        keys.push(*key);
    }
    proof {
        assert(keys@ =~= walked.unref());
        assert forall|k: u32| keys@.contains(k) <==> map@.contains_key(k) by {
            assert(keys@.to_set().contains(k) <==> map@.dom().contains(k));
        }
    }
    keys
}

} // verus!
