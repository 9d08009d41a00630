//! Betweenness centrality by counting shortest paths.

use crate::graph::{adjacent, key_list, well_formed};
use crate::numbers::{is_multiple, lcm, lemma_multiple_is_large, lemma_multiple_transitive};
use crate::ratio::Ratio;
use crate::paths::{
    bfs_order, dist, is_distance_map, is_search_order, lemma_dist_zero, lemma_first_hop,
    lemma_one_hop_before,
    lemma_triangle, lemma_dist, lemma_last_hop, lemma_one_more_hop, lemma_zero_hops, reachable, reachable_in,
};
use crate::sums::{
    column, column_sums, id_count, lemma_sum_all_bounds, lemma_sum_all_eq, lemma_sum_all_single,
    lemma_sum_below_const, lemma_sum_below_differ_at, lemma_sum_below_eq, lemma_sum_below_le,
    lemma_sum_below_scale,
    lemma_sum_seq_all, lemma_sum_seq_prefix, lemma_sum_seq_step, lemma_sum_swap, row, row_sums,
    sum_all, sum_pairs, sum_seq,
};
use std::collections::HashMap;
use vstd::prelude::*;

verus! {

/// The number of walks of `k` hops from `s` to `t`: one walk of no hop from
/// a node to itself, and to `t` in one hop more as many as there are to all
/// the nodes that `t` is a neighbour of.
pub open spec fn walks(g: Map<u32, Vec<u32>>, s: u32, t: u32, k: nat) -> int
    decreases k, 1nat,
{
    if k == 0 {
        if s == t {
            1
        } else {
            0
        }
    } else {
        sum_all(walks_by_last_hop(g, s, t, k))
    }
}

/// The number of walks of `k` hops from `s` to `t` whose last hop is from
/// `u`, as a function of `u`.
pub open spec fn walks_by_last_hop(g: Map<u32, Vec<u32>>, s: u32, t: u32, k: nat) -> spec_fn(
    u32,
) -> int
    decreases k, 0nat,
{
    |u: u32|
        if k > 0 && adjacent(g, u, t) {
            walks(g, s, u, (k - 1) as nat)
        } else {
            0
        }
}

/// The number of shortest paths from `s` to `t`; zero where no walk joins
/// them.
#[verifier::opaque]
pub open spec fn sigma(g: Map<u32, Vec<u32>>, s: u32, t: u32) -> int {
    if reachable(g, s, t) {
        walks(g, s, t, dist(g, s, t))
    } else {
        0
    }
}

/// There are as many walks of `k` hops as there can be: none where no walk
/// of `k` hops exists, and one at least where one does.
pub proof fn lemma_walks_exist(g: Map<u32, Vec<u32>>, s: u32, t: u32, k: nat)
    ensures
        walks(g, s, t, k) >= 0,
        walks(g, s, t, k) > 0 <==> reachable_in(g, s, t, k),
    decreases k,
{
    if k == 0 {
        lemma_zero_hops(g, s, t);
    } else {
        let f = walks_by_last_hop(g, s, t, k);
        let p = (k - 1) as nat;
        assert forall|u: u32| #[trigger] f(u) >= 0 by {
            lemma_walks_exist(g, s, u, p);
        }
        if reachable_in(g, s, t, k) {
            let u = lemma_last_hop(g, s, t, p);
            lemma_walks_exist(g, s, u, p);
            lemma_sum_all_bounds(f, u);
        } else {
            assert forall|u: u32| u < id_count() implies #[trigger] f(u) == 0 by {
                lemma_walks_exist(g, s, u, p);
                if adjacent(g, u, t) && reachable_in(g, s, u, p) {
                    lemma_one_more_hop(g, s, u, t, p);
                }
            }
            lemma_sum_below_const(f, 0, id_count());
        }
    }
}

/// `u` comes just before `v` on a shortest path from `s`: it is joined to
/// `v` and one hop nearer to `s`.
pub open spec fn is_pred(g: Map<u32, Vec<u32>>, s: u32, u: u32, v: u32) -> bool {
    &&& adjacent(g, u, v)
    &&& reachable(g, s, u)
    &&& reachable(g, s, v)
    &&& dist(g, s, u) + 1 == dist(g, s, v)
}

/// The number of shortest paths from `s` to each node that comes just before
/// `v`, zero for the other nodes.
pub open spec fn sigma_of_preds(g: Map<u32, Vec<u32>>, s: u32, v: u32) -> spec_fn(u32) -> int {
    |u: u32|
        if is_pred(g, s, u, v) {
            sigma(g, s, u)
        } else {
            0
        }
}

/// A hop lengthens the distance by one at most.
pub proof fn lemma_dist_step(g: Map<u32, Vec<u32>>, s: u32, u: u32, v: u32)
    requires
        reachable(g, s, u),
        adjacent(g, u, v),
    ensures
        reachable(g, s, v),
        dist(g, s, v) <= dist(g, s, u) + 1,
{
    lemma_dist(g, s, u);
    lemma_one_more_hop(g, s, u, v, dist(g, s, u));
    assert(reachable(g, s, v));
    lemma_dist(g, s, v);
}

/// There is one shortest path from a node to itself. To any other node
/// there are as many as to all the nodes just before it together, and one
/// at least where there is any walk.
pub proof fn lemma_sigma(g: Map<u32, Vec<u32>>, s: u32, v: u32)
    ensures
        sigma(g, s, s) == 1,
        sigma(g, s, v) >= 0,
        sigma(g, s, v) > 0 <==> reachable(g, s, v),
        v != s ==> sigma(g, s, v) == sum_all(sigma_of_preds(g, s, v)),
{
    reveal(sigma);
    lemma_zero_hops(g, s, s);
    assert(reachable(g, s, s));
    lemma_dist(g, s, s);
    if reachable(g, s, v) {
        lemma_dist(g, s, v);
        lemma_walks_exist(g, s, v, dist(g, s, v));
    }
    if v != s {
        let by_pred = sigma_of_preds(g, s, v);
        if reachable(g, s, v) {
            let d = dist(g, s, v);
            lemma_zero_hops(g, s, v);
            let p = (d - 1) as nat;
            let by_hop = walks_by_last_hop(g, s, v, d);
            assert forall|u: u32| #[trigger] by_hop(u) == by_pred(u) by {
                lemma_walks_exist(g, s, u, p);
                if adjacent(g, u, v) {
                    if reachable_in(g, s, u, p) {
                        assert(reachable(g, s, u));
                        lemma_dist(g, s, u);
                        lemma_dist_step(g, s, u, v);
                    } else if reachable(g, s, u) {
                        lemma_dist(g, s, u);
                    }
                }
            }
            lemma_sum_all_eq(by_hop, by_pred);
        } else {
            assert forall|u: u32| u < id_count() implies #[trigger] by_pred(u) == 0 by {}
            lemma_sum_below_const(by_pred, 0, id_count());
        }
    }
}

/// What a search from one node finds: the nodes in the order of the search,
/// their distances, and the number of shortest paths to each.
pub struct Search {
    pub order: Vec<u32>,
    pub distances: HashMap<u32, u32>,
    pub counts: HashMap<u32, u128>,
}

impl Search {
    /// The search is that of `graph` from `source`.
    pub open spec fn is_search_of(self, g: Map<u32, Vec<u32>>, source: u32) -> bool {
        &&& is_distance_map(g, source, self.distances@)
        &&& is_search_order(self.distances@, source, self.order@)
        &&& self.counts@.dom() == self.distances@.dom()
        &&& forall|v: u32| #[trigger]
            self.counts@.contains_key(v) ==> self.counts@[v] == sigma(g, source, v)
    }
}

/// In a well-formed graph, the nodes just before `v` are those of its own
/// neighbours that are one hop nearer to `s`.
proof fn lemma_preds_are_neighbours(g: Map<u32, Vec<u32>>, s: u32, v: u32, d: Map<u32, u32>)
    requires
        well_formed(g),
        is_distance_map(g, s, d),
        d.contains_key(v),
        v != s,
    ensures
        g.contains_key(v),
        g[v]@.no_duplicates(),
        forall|u: u32| #[trigger]
            is_pred(g, s, u, v) <==> g[v]@.contains(u) && d.contains_key(u) && d[u] + 1 == d[v],
        forall|u: u32| !g[v]@.contains(u) ==> #[trigger] sigma_of_preds(g, s, v)(u) == 0,
        forall|u: u32| #[trigger] sigma_of_preds(g, s, v)(u) >= 0,
        sigma(g, s, v) == sum_seq(sigma_of_preds(g, s, v), g[v]@),
{
    assert(reachable(g, s, v));
    lemma_dist(g, s, v);
    lemma_zero_hops(g, s, v);
    let k = (dist(g, s, v) - 1) as nat;
    let p = lemma_last_hop(g, s, v, k);
    assert(adjacent(g, v, p));
    assert forall|u: u32| #[trigger]
        is_pred(g, s, u, v) <==> g[v]@.contains(u) && d.contains_key(u) && d[u] + 1 == d[v] by {
        if is_pred(g, s, u, v) {
            assert(adjacent(g, v, u));
            assert(d.contains_key(u));
        }
        if g[v]@.contains(u) && d.contains_key(u) {
            assert(adjacent(g, v, u));
            assert(adjacent(g, u, v));
            assert(reachable(g, s, u));
        }
    }
    assert forall|u: u32| #[trigger] sigma_of_preds(g, s, v)(u) >= 0 by {
        lemma_sigma(g, s, u);
    }
    lemma_sigma(g, s, v);
    lemma_sum_seq_all(sigma_of_preds(g, s, v), g[v]@);
}

/// Searches the graph from `source` and counts the shortest paths to every
/// node that is reached. There is no result where one of these counts does
/// not fit the machine type.
pub fn count_shortest_paths(source: u32, graph: &HashMap<u32, Vec<u32>>) -> (found: Option<Search>)
    requires
        well_formed(graph@),
    ensures
        found matches Some(search) ==> search.is_search_of(graph@, source),
        found is None ==> exists|v: u32| sigma(graph@, source, v) > u128::MAX,
{
    broadcast use vstd::std_specs::hash::group_hash_axioms;

    let ghost g = graph@;
    let (distances, order) = bfs_order(source, graph);
    let mut counts: HashMap<u32, u128> = HashMap::new();
    counts.insert(source, 1);
    proof {
        lemma_sigma(g, source, source);
    }
    let mut i: usize = 1;
    while i < order.len()
        invariant
            1 <= i <= order@.len(),
            g == graph@,
            well_formed(g),
            is_distance_map(g, source, distances@),
            is_search_order(distances@, source, order@),
            forall|k: int| 0 <= k < i ==> counts@.contains_key(#[trigger] order@[k]),
            forall|v: u32|
                counts@.contains_key(v) ==> exists|k: int| 0 <= k < i && order@[k] == v,
            forall|v: u32| #[trigger]
                counts@.contains_key(v) ==> counts@[v] == sigma(g, source, v),
        decreases order.len() - i,
    {
        let node = order[i];
        assert(order@.contains(node));
        assert(order@[0] == source);
        let here = *distances.get(&node).unwrap();
        proof {
            lemma_preds_are_neighbours(g, source, node, distances@);
        }
        let list = graph.get(&node).unwrap();
        let ghost term = sigma_of_preds(g, source, node);
        let mut paths: u128 = 0;
        let mut j: usize = 0;
        while j < list.len()
            invariant
                j <= list@.len(),
                g == graph@,
                g.contains_key(node),
                list@ == g[node]@,
                term == sigma_of_preds(g, source, node),
                paths == sum_seq(term, list@.take(j as int)),
                is_search_order(distances@, source, order@),
                distances@.contains_key(node),
                distances@[node] == here,
                0 <= i < order@.len(),
                order@[i as int] == node,
                forall|u: u32| #[trigger]
                    is_pred(g, source, u, node) <==> list@.contains(u) && distances@.contains_key(u)
                        && distances@[u] + 1 == distances@[node],
                forall|u: u32| #[trigger] term(u) >= 0,
                sigma(g, source, node) == sum_seq(term, list@),
                forall|k: int| 0 <= k < i ==> counts@.contains_key(#[trigger] order@[k]),
                forall|v: u32| #[trigger]
                    counts@.contains_key(v) ==> counts@[v] == sigma(g, source, v),
            decreases list.len() - j,
        {
            let prev = list[j];
            proof {
                lemma_sum_seq_step(term, list@, j as int);
                lemma_sum_seq_prefix(term, list@, j + 1);
                assert(list@.contains(prev));
            }
            let before = match distances.get(&prev) {
                Some(hops) => *hops < here && *hops + 1 == here,
                None => false,
            };
            if before {
                proof {
                    assert(is_pred(g, source, prev, node));
                    assert(order@.contains(prev));
                    let k = choose|k: int| 0 <= k < order@.len() && order@[k] == prev;
                    if k >= i {
                        assert(distances@[order@[i as int]] <= distances@[order@[k]]);
                    }
                }
                let known = *counts.get(&prev).unwrap();
                match paths.checked_add(known) {
                    Some(sum) => {
                        paths = sum;
                    },
                    None => {
                        assert(sigma(g, source, node) > u128::MAX);
                        return None;
                    },
                }
            } else {
                assert(!is_pred(g, source, prev, node));
            }
            j += 1;
        }
        proof {
            assert(list@.take(j as int) == list@);
        }
        let ghost before = counts@;
        counts.insert(node, paths);
        proof {
            assert forall|v: u32| counts@.contains_key(v) implies exists|k: int|
                0 <= k < i + 1 && order@[k] == v by {
                if v == node {
                    assert(0 <= i < i + 1 && order@[i as int] == v);
                } else {
                    let k = choose|k: int| 0 <= k < i && order@[k] == v;
                    assert(0 <= k < i + 1 && order@[k] == v);
                }
            }
        }
        i += 1;
    }
    proof {
        assert(counts@.dom() =~= distances@.dom()) by {
            assert forall|v: u32| counts@.contains_key(v) <==> distances@.contains_key(v) by {
                if counts@.contains_key(v) {
                    let k = choose|k: int| 0 <= k < i && order@[k] == v;
                    assert(order@.contains(v));
                }
                if distances@.contains_key(v) {
                    assert(order@.contains(v));
                    let k = choose|k: int| 0 <= k < order@.len() && order@[k] == v;
                    assert(counts@.contains_key(order@[k]));
                }
            }
        }
    }
    Some(Search { order, distances, counts })
}

/// The number of walks of `k` hops from `s` to `t` whose first hop is to
/// `w`, as a function of `w`.
pub open spec fn walks_by_first_hop(g: Map<u32, Vec<u32>>, s: u32, t: u32, k: nat) -> spec_fn(
    u32,
) -> int {
    |w: u32|
        if k > 0 && adjacent(g, s, w) {
            walks(g, w, t, (k - 1) as nat)
        } else {
            0
        }
}

/// The walks of `k - 2` hops between the ends of a first hop from `s` and of
/// a last hop to `t`.
pub open spec fn walks_between_hops(g: Map<u32, Vec<u32>>, s: u32, t: u32, k: nat) -> spec_fn(
    u32,
    u32,
) -> int {
    |u: u32, w: u32|
        if k > 1 && adjacent(g, u, t) && adjacent(g, s, w) {
            walks(g, w, u, (k - 2) as nat)
        } else {
            0
        }
}

/// Walks may be counted by their first hop as well as by their last.
pub proof fn lemma_walks_first_hop(g: Map<u32, Vec<u32>>, s: u32, t: u32, k: nat)
    requires
        k > 0,
    ensures
        walks(g, s, t, k) == sum_all(walks_by_first_hop(g, s, t, k)),
    decreases k,
{
    let last = walks_by_last_hop(g, s, t, k);
    let first = walks_by_first_hop(g, s, t, k);
    let n = id_count();
    if k == 1 {
        lemma_sum_all_single(last, s);
        lemma_sum_all_single(first, t);
    } else {
        let p = (k - 1) as nat;
        let h = walks_between_hops(g, s, t, k);
        assert forall|u: u32| u < n implies #[trigger] last(u) == row_sums(h, n)(u) by {
            if adjacent(g, u, t) {
                lemma_walks_first_hop(g, s, u, p);
                lemma_sum_below_eq(walks_by_first_hop(g, s, u, p), row(h, u), n);
            } else {
                lemma_sum_below_const(row(h, u), 0, n);
            }
        }
        lemma_sum_below_eq(last, row_sums(h, n), n);
        lemma_sum_swap(h, n, n);
        assert forall|w: u32| w < n implies #[trigger] first(w) == column_sums(h, n)(w) by {
            if adjacent(g, s, w) {
                lemma_sum_below_eq(walks_by_last_hop(g, w, t, p), column(h, w), n);
            } else {
                lemma_sum_below_const(column(h, w), 0, n);
            }
        }
        lemma_sum_below_eq(first, column_sums(h, n), n);
    }
}

/// `w` comes just after `v` on a shortest path to `t`: `v` is joined to it
/// and it is one hop nearer to `t`.
pub open spec fn is_next(g: Map<u32, Vec<u32>>, v: u32, w: u32, t: u32) -> bool {
    &&& adjacent(g, v, w)
    &&& reachable(g, w, t)
    &&& reachable(g, v, t)
    &&& dist(g, w, t) + 1 == dist(g, v, t)
}

/// The number of shortest paths to `t` from each node that comes just after
/// `v`, zero for the other nodes.
pub open spec fn sigma_of_nexts(g: Map<u32, Vec<u32>>, v: u32, t: u32) -> spec_fn(u32) -> int {
    |w: u32|
        if is_next(g, v, w, t) {
            sigma(g, w, t)
        } else {
            0
        }
}

/// A first hop shortens the distance by one at most.
pub proof fn lemma_dist_first_step(g: Map<u32, Vec<u32>>, v: u32, w: u32, t: u32)
    requires
        adjacent(g, v, w),
        reachable(g, w, t),
    ensures
        reachable(g, v, t),
        dist(g, v, t) <= dist(g, w, t) + 1,
{
    lemma_dist(g, w, t);
    lemma_one_hop_before(g, v, w, t, dist(g, w, t));
    assert(reachable(g, v, t));
    lemma_dist(g, v, t);
}

/// There are as many shortest paths from `v` to another node `t` as from
/// all the nodes just after `v` together.
pub proof fn lemma_sigma_first_hop(g: Map<u32, Vec<u32>>, v: u32, t: u32)
    requires
        reachable(g, v, t),
        v != t,
    ensures
        sigma(g, v, t) == sum_all(sigma_of_nexts(g, v, t)),
{
    reveal(sigma);
    let d = dist(g, v, t);
    lemma_dist(g, v, t);
    lemma_zero_hops(g, v, t);
    let p = (d - 1) as nat;
    lemma_walks_first_hop(g, v, t, d);
    let by_hop = walks_by_first_hop(g, v, t, d);
    let by_next = sigma_of_nexts(g, v, t);
    assert forall|w: u32| #[trigger] by_hop(w) == by_next(w) by {
        lemma_walks_exist(g, w, t, p);
        if adjacent(g, v, w) {
            if reachable_in(g, w, t, p) {
                assert(reachable(g, w, t));
                lemma_dist(g, w, t);
                lemma_dist_first_step(g, v, w, t);
            } else if reachable(g, w, t) {
                lemma_dist(g, w, t);
            }
        }
    }
    lemma_sum_all_eq(by_hop, by_next);
}

/// `v` lies on a shortest path from `s` to `t`.
pub open spec fn on_path(g: Map<u32, Vec<u32>>, s: u32, v: u32, t: u32) -> bool {
    &&& reachable(g, s, v)
    &&& reachable(g, v, t)
    &&& reachable(g, s, t)
    &&& dist(g, s, v) + dist(g, v, t) == dist(g, s, t)
}

/// The share of the shortest paths from `s` to `t` that pass through `v`,
/// as a multiple of `1 / m`: the number of shortest paths from `s` to `v`
/// times the number of those from `v` to `t`, over the number of all
/// shortest paths from `s` to `t`, times `m`. It is zero unless `s`, `v` and
/// `t` are three different nodes. It is exact where `m` is a multiple of the
/// number of shortest paths from `s` to `t`.
pub open spec fn share(g: Map<u32, Vec<u32>>, s: u32, t: u32, v: u32, m: int) -> int {
    if s != v && t != v && s != t && on_path(g, s, v, t) {
        sigma(g, s, v) * sigma(g, v, t) * (m / sigma(g, s, t))
    } else {
        0
    }
}

/// The share that passes through `v`, as a function of the two ends.
pub open spec fn shares(g: Map<u32, Vec<u32>>, v: u32, m: int) -> spec_fn(u32, u32) -> int {
    |s: u32, t: u32| share(g, s, t, v, m)
}

/// The sum, over all ordered pairs of nodes, of the share of their shortest
/// paths that passes through `v`, as a multiple of `1 / m`. Every pair of
/// nodes is counted in both orders, so that the betweenness centrality of
/// `v` is this number over `2 * m`.
#[verifier::opaque]
pub open spec fn scaled_betweenness(g: Map<u32, Vec<u32>>, v: u32, m: int) -> int {
    sum_pairs(shares(g, v, m))
}

/// The dependency of `s` on `v`: the sum over all `t` of the share of the
/// shortest paths from `s` to `t` that passes through `v`, as a multiple of
/// `1 / m`.
#[verifier::opaque]
pub open spec fn dependency(g: Map<u32, Vec<u32>>, s: u32, v: u32, m: int) -> int {
    sum_all(row(shares(g, v, m), s))
}

/// For every `t` beyond `v` as seen from `s`, the number of shortest paths
/// from `v` to `t` over the number of those from `s` to `t`, times `m`.
pub open spec fn beyond_term(g: Map<u32, Vec<u32>>, s: u32, v: u32, m: int) -> spec_fn(u32) -> int {
    |t: u32|
        if t != v && on_path(g, s, v, t) {
            sigma(g, v, t) * (m / sigma(g, s, t))
        } else {
            0
        }
}

/// The dependency of `s` on `v` for each single shortest path from `s` to
/// `v`.
#[verifier::opaque]
pub open spec fn beyond(g: Map<u32, Vec<u32>>, s: u32, v: u32, m: int) -> int {
    sum_all(beyond_term(g, s, v, m))
}

/// What each node just after `v` passes on to `v`: `m` over the number of
/// shortest paths to it, and what lies beyond it.
pub open spec fn passed_on(g: Map<u32, Vec<u32>>, s: u32, v: u32, m: int) -> spec_fn(u32) -> int {
    |w: u32|
        if is_pred(g, s, v, w) {
            m / sigma(g, s, w) + beyond(g, s, w, m)
        } else {
            0
        }
}

/// What `t` adds beyond `v` by way of `w`.
pub open spec fn carried(g: Map<u32, Vec<u32>>, s: u32, v: u32, m: int) -> spec_fn(u32, u32) -> int {
    |t: u32, w: u32|
        if t != v && on_path(g, s, v, t) && is_next(g, v, w, t) {
            sigma(g, w, t) * (m / sigma(g, s, t))
        } else {
            0
        }
}

/// The dependency of `s` on another node `v` is the number of shortest
/// paths from `s` to `v` times the dependency for each of them.
pub proof fn lemma_dependency(g: Map<u32, Vec<u32>>, s: u32, v: u32, m: int)
    requires
        s != v,
    ensures
        dependency(g, s, v, m) == sigma(g, s, v) * beyond(g, s, v, m),
{
    reveal(dependency);
    reveal(beyond);
    let whole = row(shares(g, v, m), s);
    let each = beyond_term(g, s, v, m);
    let c = sigma(g, s, v);
    assert forall|t: u32| t < id_count() implies #[trigger] whole(t) == c * each(t) by {
        if t != v && on_path(g, s, v, t) {
            lemma_dist_zero(g, s, v);
            let a = sigma(g, v, t);
            let q = m / sigma(g, s, t);
            assert(c * a * q == c * (a * q)) by (nonlinear_arith);
        } else {
            assert(c * 0 == 0);
        }
    }
    lemma_sum_below_scale(each, whole, c, id_count());
}

/// A shortest path from `s` through `v` goes on through a node `w` just
/// after `v` exactly when `w` comes just after `v` as seen from `s` and the
/// path passes through `w`.
pub proof fn lemma_path_goes_on(g: Map<u32, Vec<u32>>, s: u32, v: u32, w: u32, t: u32)
    ensures
        (t != v && on_path(g, s, v, t) && is_next(g, v, w, t)) <==> (is_pred(g, s, v, w)
            && on_path(g, s, w, t)),
{
    if on_path(g, s, v, t) && is_next(g, v, w, t) {
        lemma_dist_step(g, s, v, w);
        lemma_triangle(g, s, w, t);
        lemma_dist_zero(g, v, t);
    }
    if is_pred(g, s, v, w) && on_path(g, s, w, t) {
        lemma_dist_first_step(g, v, w, t);
        lemma_triangle(g, s, v, t);
        lemma_dist_zero(g, v, t);
    }
}

/// The recurrence of the dependencies: what lies beyond `v`, as seen from
/// `s`, is what the nodes just after `v` pass on to it.
pub proof fn lemma_beyond(g: Map<u32, Vec<u32>>, s: u32, v: u32, m: int)
    ensures
        beyond(g, s, v, m) == sum_all(passed_on(g, s, v, m)),
{
    reveal(beyond);
    let n = id_count();
    let k = carried(g, s, v, m);
    let each = beyond_term(g, s, v, m);
    assert forall|t: u32| t < n implies #[trigger] each(t) == row_sums(k, n)(t) by {
        if t != v && on_path(g, s, v, t) {
            lemma_sigma_first_hop(g, v, t);
            let q = m / sigma(g, s, t);
            let nexts = sigma_of_nexts(g, v, t);
            assert forall|w: u32| w < n implies #[trigger] row(k, t)(w) == q * nexts(w) by {
                if is_next(g, v, w, t) {
                    assert(sigma(g, w, t) * q == q * sigma(g, w, t)) by (nonlinear_arith);
                } else {
                    assert(q * 0 == 0);
                }
            }
            lemma_sum_below_scale(nexts, row(k, t), q, n);
            assert(sigma(g, v, t) * q == q * sigma(g, v, t)) by (nonlinear_arith);
        } else {
            lemma_sum_below_const(row(k, t), 0, n);
        }
    }
    lemma_sum_below_eq(each, row_sums(k, n), n);
    lemma_sum_swap(k, n, n);
    let passed = passed_on(g, s, v, m);
    assert forall|w: u32| w < n implies #[trigger] passed(w) == column_sums(k, n)(w) by {
        let col = column(k, w);
        if is_pred(g, s, v, w) {
            let further = beyond_term(g, s, w, m);
            assert forall|t: u32| t != w implies #[trigger] col(t) == further(t) by {
                lemma_path_goes_on(g, s, v, w, t);
            }
            lemma_sum_below_differ_at(col, further, w, n);
            lemma_path_goes_on(g, s, v, w, w);
            lemma_dist_zero(g, w, w);
            lemma_sigma(g, w, w);
            assert(on_path(g, s, w, w));
            assert(col(w) == 1 * (m / sigma(g, s, w)));
        } else {
            assert forall|t: u32| t < n implies #[trigger] col(t) == 0 by {
                lemma_path_goes_on(g, s, v, w, t);
            }
            lemma_sum_below_const(col, 0, n);
        }
    }
    lemma_sum_below_eq(passed, column_sums(k, n), n);
}

/// `m` is a multiple of the number of shortest paths from `s` to every node
/// that `s` reaches.
pub open spec fn covers(g: Map<u32, Vec<u32>>, m: int, s: u32) -> bool {
    forall|t: u32| reachable(g, s, t) ==> #[trigger] is_multiple(m, sigma(g, s, t))
}

/// `m` is positive and a multiple of the number of shortest paths between
/// any two nodes that a walk joins.
pub open spec fn common_multiple(g: Map<u32, Vec<u32>>, m: int) -> bool {
    &&& m > 0
    &&& forall|s: u32| #[trigger] covers(g, m, s)
}

/// `m` is the least of the common multiples, which divides them all.
pub open spec fn least_common_multiple(g: Map<u32, Vec<u32>>, m: int) -> bool {
    &&& common_multiple(g, m)
    &&& forall|k: int| #[trigger] common_multiple(g, k) ==> is_multiple(k, m)
}

/// An identifier that is no node of the graph reaches itself alone.
pub proof fn lemma_stranger(g: Map<u32, Vec<u32>>, s: u32, t: u32)
    requires
        !g.contains_key(s),
        reachable(g, s, t),
    ensures
        s == t,
{
    let k = choose|k: nat| reachable_in(g, s, t, k);
    if k > 0 {
        let u = lemma_first_hop(g, s, t, (k - 1) as nat);
    } else {
        lemma_zero_hops(g, s, t);
    }
}

/// A multiple of a number that covers `s` covers `s`.
proof fn lemma_covers_still(g: Map<u32, Vec<u32>>, m: int, k: int, s: u32)
    requires
        covers(g, m, s),
        is_multiple(k, m),
    ensures
        covers(g, k, s),
{
    assert forall|t: u32| reachable(g, s, t) implies #[trigger] is_multiple(k, sigma(g, s, t)) by {
        assert(is_multiple(m, sigma(g, s, t)));
        lemma_multiple_transitive(k, m, sigma(g, s, t));
    }
}

/// The least common multiple of the numbers of shortest paths between all
/// pairs of nodes that a walk joins, or nothing where it does not fit the
/// machine type.
pub fn path_count_lcm(graph: &HashMap<u32, Vec<u32>>) -> (least: Option<u128>)
    requires
        well_formed(graph@),
    ensures
        least matches Some(m) ==> least_common_multiple(graph@, m as int),
        least is None ==> forall|k: int| #[trigger] common_multiple(graph@, k) ==> k > u128::MAX,
{
    broadcast use vstd::std_specs::hash::group_hash_axioms;

    let ghost g = graph@;
    let nodes = key_list(graph);
    let mut least: u128 = 1;
    let mut i: usize = 0;
    proof {
        assert forall|k: int| #[trigger] common_multiple(g, k) implies is_multiple(k, 1) by {}
    }
    while i < nodes.len()
        invariant
            i <= nodes@.len(),
            g == graph@,
            well_formed(g),
            forall|k: u32| nodes@.contains(k) <==> g.contains_key(k),
            least > 0,
            forall|k: int| 0 <= k < i ==> covers(g, least as int, #[trigger] nodes@[k]),
            forall|k: int| #[trigger] common_multiple(g, k) ==> is_multiple(k, least as int),
        decreases nodes.len() - i,
    {
        let source = nodes[i];
        let search = match count_shortest_paths(source, graph) {
            Some(search) => search,
            None => {
                proof {
                    let v = choose|v: u32| sigma(g, source, v) > u128::MAX;
                    lemma_sigma(g, source, v);
                    assert forall|k: int| #[trigger] common_multiple(g, k) implies k
                        > u128::MAX by {
                        assert(covers(g, k, source));
                        assert(is_multiple(k, sigma(g, source, v)));
                        lemma_multiple_is_large(k, sigma(g, source, v));
                    }
                }
                return None;
            },
        };
        let mut j: usize = 0;
        while j < search.order.len()
            invariant
                j <= search.order@.len(),
                0 <= i < nodes@.len(),
                g == graph@,
                source == nodes@[i as int],
                search.is_search_of(g, source),
                least > 0,
                forall|k: int| 0 <= k < i ==> covers(g, least as int, #[trigger] nodes@[k]),
                forall|k: int|
                    0 <= k < j ==> is_multiple(
                        least as int,
                        sigma(g, source, #[trigger] search.order@[k]),
                    ),
                forall|k: int| #[trigger] common_multiple(g, k) ==> is_multiple(k, least as int),
            decreases search.order.len() - j,
        {
            let node = search.order[j];
            assert(search.order@.contains(node));
            let count = *search.counts.get(&node).unwrap();
            proof {
                lemma_sigma(g, source, node);
                assert(reachable(g, source, node));
            }
            let ghost before = least;
            match lcm(least, count) {
                Some(both) => {
                    least = both;
                },
                None => {
                    proof {
                        assert forall|k: int| #[trigger] common_multiple(g, k) implies k
                            > u128::MAX by {
                            assert(covers(g, k, source));
                            assert(is_multiple(k, sigma(g, source, node)));
                        }
                    }
                    return None;
                },
            }
            proof {
                assert forall|k: int| 0 <= k < i implies covers(
                    g,
                    least as int,
                    #[trigger] nodes@[k],
                ) by {
                    lemma_covers_still(g, before as int, least as int, nodes@[k]);
                }
                assert forall|k: int| 0 <= k < j + 1 implies is_multiple(
                    least as int,
                    sigma(g, source, #[trigger] search.order@[k]),
                ) by {
                    if k < j {
                        lemma_multiple_transitive(
                            least as int,
                            before as int,
                            sigma(g, source, search.order@[k]),
                        );
                    }
                }
                assert forall|k: int| #[trigger] common_multiple(g, k) implies is_multiple(
                    k,
                    least as int,
                ) by {
                    assert(covers(g, k, source));
                    assert(is_multiple(k, sigma(g, source, node)));
                }
            }
            j += 1;
        }
        proof {
            assert forall|t: u32| reachable(g, source, t) implies #[trigger] is_multiple(
                least as int,
                sigma(g, source, t),
            ) by {
                assert(search.distances@.contains_key(t));
                assert(search.order@.contains(t));
                let k = choose|k: int| 0 <= k < search.order@.len() && search.order@[k] == t;
                assert(is_multiple(least as int, sigma(g, source, search.order@[k])));
            }
        }
        i += 1;
    }
    proof {
        assert forall|s: u32| #[trigger] covers(g, least as int, s) by {
            if g.contains_key(s) {
                assert(nodes@.contains(s));
                let k = choose|k: int| 0 <= k < nodes@.len() && nodes@[k] == s;
                assert(covers(g, least as int, nodes@[k]));
            } else {
                assert forall|t: u32| reachable(g, s, t) implies #[trigger] is_multiple(
                    least as int,
                    sigma(g, s, t),
                ) by {
                    lemma_stranger(g, s, t);
                    lemma_sigma(g, s, s);
                }
            }
        }
    }
    Some(least)
}

/// The dependency of `s` on each node, as a function of `s`.
pub open spec fn dependencies_on(g: Map<u32, Vec<u32>>, v: u32, m: int) -> spec_fn(u32) -> int {
    |s: u32| dependency(g, s, v, m)
}

/// With `m` not negative, no share and no sum of shares is negative; what
/// lies beyond a node is at least `0`, and the dependency on a node that is
/// reached is at least what lies beyond it.
pub proof fn lemma_not_negative(g: Map<u32, Vec<u32>>, s: u32, v: u32, m: int)
    requires
        m >= 0,
    ensures
        beyond(g, s, v, m) >= 0,
        dependency(g, s, v, m) >= 0,
        forall|t: u32| #[trigger] share(g, s, t, v, m) >= 0,
        forall|w: u32| sigma(g, s, w) > 0 ==> m / sigma(g, s, w) >= 0,
        s != v && reachable(g, s, v) ==> dependency(g, s, v, m) >= beyond(g, s, v, m),
{
    reveal(beyond);
    reveal(dependency);
    assert forall|w: u32| sigma(g, s, w) > 0 implies m / sigma(g, s, w) >= 0 by {
        vstd::arithmetic::div_mod::lemma_div_pos_is_pos(m, sigma(g, s, w));
    }
    let each = beyond_term(g, s, v, m);
    assert forall|t: u32| #[trigger] each(t) >= 0 by {
        if t != v && on_path(g, s, v, t) {
            lemma_sigma(g, v, t);
            lemma_sigma(g, s, t);
            let a = sigma(g, v, t);
            let q = m / sigma(g, s, t);
            assert(a * q >= 0) by (nonlinear_arith)
                requires
                    a >= 0,
                    q >= 0,
            ;
        }
    }
    lemma_sum_all_bounds(each, v);
    let c = sigma(g, s, v);
    let b = beyond(g, s, v, m);
    lemma_sigma(g, s, v);
    assert forall|t: u32| #[trigger] share(g, s, t, v, m) >= 0 by {
        if s != v && t != v && s != t && on_path(g, s, v, t) {
            let a = sigma(g, v, t);
            let q = m / sigma(g, s, t);
            lemma_sigma(g, v, t);
            lemma_sigma(g, s, t);
            assert(c * a * q >= 0) by (nonlinear_arith)
                requires
                    c >= 0,
                    a >= 0,
                    q >= 0,
            ;
        }
    }
    if s != v {
        lemma_dependency(g, s, v, m);
        assert(c * b >= 0) by (nonlinear_arith)
            requires
                c >= 0,
                b >= 0,
        ;
        if reachable(g, s, v) {
            assert(c * b >= b) by (nonlinear_arith)
                requires
                    c >= 1,
                    b >= 0,
            ;
        }
    } else {
        lemma_sum_below_const(row(shares(g, v, m), s), 0, id_count());
    }
}

/// Nothing depends on a node through itself, and nothing on a node that it
/// does not reach.
pub proof fn lemma_no_dependency(g: Map<u32, Vec<u32>>, s: u32, v: u32, m: int)
    requires
        s == v || !reachable(g, s, v),
    ensures
        dependency(g, s, v, m) == 0,
{
    reveal(dependency);
    lemma_sum_below_const(row(shares(g, v, m), s), 0, id_count());
}

/// The sum of the dependencies of all nodes on `v` is the sum over all pairs
/// of the shares that pass through `v`.
pub proof fn lemma_scaled_by_source(g: Map<u32, Vec<u32>>, v: u32, m: int)
    ensures
        scaled_betweenness(g, v, m) == sum_all(dependencies_on(g, v, m)),
{
    reveal(scaled_betweenness);
    reveal(dependency);
    lemma_sum_all_eq(row_sums(shares(g, v, m), id_count()), dependencies_on(g, v, m));
}

/// The sums of shares grow with the multiple that they are taken of.
pub proof fn lemma_scaled_grows(g: Map<u32, Vec<u32>>, v: u32, m: int, k: int)
    requires
        common_multiple(g, m),
        is_multiple(k, m),
        k > 0,
    ensures
        scaled_betweenness(g, v, m) <= scaled_betweenness(g, v, k),
{
    reveal(scaled_betweenness);
    let n = id_count();
    let small = shares(g, v, m);
    let large = shares(g, v, k);
    lemma_multiple_is_large(k, m);
    assert forall|s: u32| s < n implies #[trigger] row_sums(small, n)(s) <= row_sums(large, n)(
        s,
    ) by {
        assert forall|t: u32| t < n implies #[trigger] row(small, s)(t) <= row(large, s)(t) by {
            if s != v && t != v && s != t && on_path(g, s, v, t) {
                let c = sigma(g, s, v);
                let a = sigma(g, v, t);
                let b = sigma(g, s, t);
                lemma_sigma(g, s, v);
                lemma_sigma(g, v, t);
                lemma_sigma(g, s, t);
                assert(covers(g, m, s));
                assert(is_multiple(m, b));
                lemma_multiple_transitive(k, m, b);
                let q = m / b;
                let f = k / m;
                vstd::arithmetic::div_mod::lemma_div_pos_is_pos(m, b);
                assert(c * a * q <= c * a * (f * q)) by (nonlinear_arith)
                    requires
                        c >= 0,
                        a >= 0,
                        q >= 0,
                        f >= 1,
                ;
            }
        }
        lemma_sum_below_le(row(small, s), row(large, s), n);
    }
    lemma_sum_below_le(row_sums(small, n), row_sums(large, n), n);
}

/// Two least common multiples are the same number.
pub proof fn lemma_least_is_one(g: Map<u32, Vec<u32>>, m: int, k: int)
    requires
        least_common_multiple(g, m),
        least_common_multiple(g, k),
    ensures
        m == k,
{
    assert(is_multiple(k, m));
    assert(is_multiple(m, k));
    lemma_multiple_is_large(k, m);
    lemma_multiple_is_large(m, k);
}

/// In a well-formed graph, what lies beyond a node `v` that `s` reaches is
/// what those of its neighbours pass on that are one hop further from `s`.
proof fn lemma_nexts_are_neighbours(
    g: Map<u32, Vec<u32>>,
    s: u32,
    v: u32,
    d: Map<u32, u32>,
    m: int,
)
    requires
        well_formed(g),
        is_distance_map(g, s, d),
        d.contains_key(v),
        g.contains_key(v),
        m >= 0,
    ensures
        forall|w: u32| #[trigger]
            is_pred(g, s, v, w) <==> g[v]@.contains(w) && d.contains_key(w) && d[w] == d[v] + 1,
        forall|w: u32| #[trigger] passed_on(g, s, v, m)(w) >= 0,
        beyond(g, s, v, m) == sum_seq(passed_on(g, s, v, m), g[v]@),
{
    let passed = passed_on(g, s, v, m);
    assert(reachable(g, s, v));
    assert forall|w: u32| #[trigger]
        is_pred(g, s, v, w) <==> g[v]@.contains(w) && d.contains_key(w) && d[w] == d[v] + 1 by {
        if is_pred(g, s, v, w) {
            assert(d.contains_key(w));
        }
        if g[v]@.contains(w) && d.contains_key(w) {
            assert(adjacent(g, v, w));
            assert(reachable(g, s, w));
        }
    }
    assert forall|w: u32| #[trigger] passed(w) >= 0 by {
        if is_pred(g, s, v, w) {
            lemma_sigma(g, s, w);
            lemma_not_negative(g, s, w, m);
        }
    }
    lemma_beyond(g, s, v, m);
    lemma_sum_seq_all(passed, g[v]@);
}

/// A node that is further from the source than the node at position `at`
/// of the order of search stands after that position.
proof fn lemma_further_is_later(d: Map<u32, u32>, s: u32, order: Seq<u32>, at: int, w: u32)
    requires
        is_search_order(d, s, order),
        0 <= at < order.len(),
        d.contains_key(w),
        d[w] > d[order[at]],
    ensures
        exists|k: int| at < k < order.len() && order[k] == w,
{
    assert(order.contains(w));
    let k = choose|k: int| 0 <= k < order.len() && order[k] == w;
    if k <= at {
        assert(d[order[k]] <= d[order[at]]);
    }
    assert(at < k < order.len() && order[k] == w);
}

/// What lies beyond `node` as seen from the source of the search, as a
/// multiple of `1 / multiple`, from what lies beyond the nodes just after
/// it; or nothing where it does not fit the machine type.
fn beyond_of(
    source: u32,
    node: u32,
    graph: &HashMap<u32, Vec<u32>>,
    multiple: u128,
    search: &Search,
    rest: &HashMap<u32, u128>,
) -> (sum: Option<u128>)
    requires
        well_formed(graph@),
        search.is_search_of(graph@, source),
        search.distances@.contains_key(node),
        graph@.contains_key(node),
        forall|w: u32| #[trigger]
            is_pred(graph@, source, node, w) ==> rest@.contains_key(w) && rest@[w] == beyond(
                graph@,
                source,
                w,
                multiple as int,
            ),
    ensures
        sum matches Some(b) ==> b == beyond(graph@, source, node, multiple as int),
        sum is None ==> beyond(graph@, source, node, multiple as int) > u128::MAX,
{
    broadcast use vstd::std_specs::hash::group_hash_axioms;

    let ghost g = graph@;
    let ghost m = multiple as int;
    let here = *search.distances.get(&node).unwrap();
    let list = graph.get(&node).unwrap();
    let ghost term = passed_on(g, source, node, m);
    proof {
        lemma_nexts_are_neighbours(g, source, node, search.distances@, m);
    }
    let mut sum: u128 = 0;
    let mut j: usize = 0;
    while j < list.len()
        invariant
            j <= list@.len(),
            g == graph@,
            m == multiple as int,
            g.contains_key(node),
            list@ == g[node]@,
            term == passed_on(g, source, node, m),
            sum == sum_seq(term, list@.take(j as int)),
            search.is_search_of(g, source),
            search.distances@.contains_key(node),
            search.distances@[node] == here,
            forall|w: u32| #[trigger]
                is_pred(g, source, node, w) <==> list@.contains(w)
                    && search.distances@.contains_key(w) && search.distances@[w] == here + 1,
            forall|w: u32| #[trigger] term(w) >= 0,
            beyond(g, source, node, m) == sum_seq(term, list@),
            forall|w: u32| #[trigger]
                is_pred(g, source, node, w) ==> rest@.contains_key(w) && rest@[w] == beyond(
                    g,
                    source,
                    w,
                    m,
                ),
        decreases list.len() - j,
    {
        let next = list[j];
        proof {
            lemma_sum_seq_step(term, list@, j as int);
            lemma_sum_seq_prefix(term, list@, j + 1);
            lemma_sum_seq_prefix(term, list@, j as int);
            assert(list@.contains(next));
        }
        let after = match search.distances.get(&next) {
            Some(hops) => *hops > here && *hops - 1 == here,
            None => false,
        };
        if after {
            proof {
                assert(is_pred(g, source, node, next));
                assert(search.counts@.contains_key(next));
                lemma_sigma(g, source, next);
            }
            let paths = *search.counts.get(&next).unwrap();
            let further = *rest.get(&next).unwrap();
            let part = multiple / paths;
            assert(term(next) == part + further);
            let both = match part.checked_add(further) {
                Some(both) => both,
                None => {
                    return None;
                },
            };
            match sum.checked_add(both) {
                Some(more) => {
                    sum = more;
                },
                None => {
                    return None;
                },
            }
        } else {
            assert(!is_pred(g, source, node, next));
        }
        j += 1;
    }
    proof {
        assert(list@.take(j as int) == list@);
    }
    Some(sum)
}

/// The running totals hold what they held at the start and, for each of
/// the nodes that are settled, the dependency of the source on it.
pub open spec fn totals_so_far(
    g: Map<u32, Vec<u32>>,
    source: u32,
    m: int,
    start: Map<u32, u128>,
    totals: Map<u32, u128>,
    settled: Set<u32>,
) -> bool {
    &&& totals.dom() == g.dom()
    &&& start.dom() == g.dom()
    &&& forall|v: u32| #[trigger]
        g.contains_key(v) ==> totals[v] == start[v] + if settled.contains(v) {
            dependency(g, source, v, m)
        } else {
            0
        }
}

/// Adds to the running totals the dependency of `source` on every node of
/// the graph, as a multiple of `1 / multiple`. It gives up, and says so,
/// where a total does not fit the machine type.
pub fn add_dependencies(
    source: u32,
    graph: &HashMap<u32, Vec<u32>>,
    multiple: u128,
    totals: &mut HashMap<u32, u128>,
) -> (done: bool)
    requires
        well_formed(graph@),
        common_multiple(graph@, multiple as int),
        old(totals)@.dom() == graph@.dom(),
    ensures
        final(totals)@.dom() == graph@.dom(),
        done ==> forall|v: u32| #[trigger]
            graph@.contains_key(v) ==> final(totals)@[v] == old(totals)@[v] + dependency(
                graph@,
                source,
                v,
                multiple as int,
            ),
        !done ==> exists|v: u32| #[trigger]
            graph@.contains_key(v) && old(totals)@[v] + dependency(
                graph@,
                source,
                v,
                multiple as int,
            ) > u128::MAX,
{
    broadcast use vstd::std_specs::hash::group_hash_axioms;

    let ghost g = graph@;
    let ghost m = multiple as int;
    let ghost start = totals@;
    let search = match count_shortest_paths(source, graph) {
        Some(search) => search,
        None => {
            proof {
                let v = choose|v: u32| sigma(g, source, v) > u128::MAX;
                lemma_sigma(g, source, v);
                assert(covers(g, m, source));
                assert(is_multiple(m, sigma(g, source, v)));
                lemma_multiple_is_large(m, sigma(g, source, v));
            }
            return false;
        },
    };
    let mut rest: HashMap<u32, u128> = HashMap::new();
    let mut at: usize = search.order.len();
    let ghost mut settled: Set<u32> = Set::empty();
    while at > 1
        invariant
            1 <= at <= search.order@.len(),
            g == graph@,
            m == multiple as int,
            m > 0,
            start == old(totals)@,
            well_formed(g),
            search.is_search_of(g, source),
            totals_so_far(g, source, m, start, totals@, settled),
            forall|k: int|
                at <= k < search.order@.len() ==> settled.contains(#[trigger] search.order@[k]),
            forall|v: u32|
                settled.contains(v) ==> exists|k: int|
                    at <= k < search.order@.len() && search.order@[k] == v,
            forall|v: u32| #[trigger]
                settled.contains(v) ==> rest@.contains_key(v) && rest@[v] == beyond(
                    g,
                    source,
                    v,
                    m,
                ),
        decreases at,
    {
        at -= 1;
        let node = search.order[at];
        proof {
            assert(search.order@.contains(node));
            assert(search.order@[0] == source);
            lemma_preds_are_neighbours(g, source, node, search.distances@);
            lemma_sigma(g, source, node);
            lemma_not_negative(g, source, node, m);
            lemma_dependency(g, source, node, m);
            if settled.contains(node) {
                let k = choose|k: int|
                    at + 1 <= k < search.order@.len() && search.order@[k] == node;
                assert(search.order@[k] == search.order@[at as int]);
            }
            assert(!settled.contains(node));
            assert(g.contains_key(node));
            assert(totals@[node] == start[node]);
            assert forall|w: u32| #[trigger] is_pred(g, source, node, w) implies settled.contains(
                w,
            ) by {
                assert(search.distances@.contains_key(w));
                lemma_further_is_later(search.distances@, source, search.order@, at as int, w);
                let k = choose|k: int| at < k < search.order@.len() && search.order@[k] == w;
                assert(settled.contains(search.order@[k]));
            }
        }
        let count = *search.counts.get(&node).unwrap();
        let so_far = *totals.get(&node).unwrap();
        let ghost gone = start[node] + dependency(g, source, node, m) > u128::MAX;
        let sum = match beyond_of(source, node, graph, multiple, &search, &rest) {
            Some(sum) => sum,
            None => {
                assert(g.contains_key(node) && gone);
                return false;
            },
        };
        assert(dependency(g, source, node, m) == count * sum);
        let share = match count.checked_mul(sum) {
            Some(share) => share,
            None => {
                assert(g.contains_key(node) && gone);
                return false;
            },
        };
        let total = match so_far.checked_add(share) {
            Some(total) => total,
            None => {
                assert(g.contains_key(node) && gone);
                return false;
            },
        };
        rest.insert(node, sum);
        totals.insert(node, total);
        proof {
            let wider = settled.insert(node);
            assert(totals@.dom() =~= g.dom());
            assert forall|v: u32| wider.contains(v) implies exists|k: int|
                at <= k < search.order@.len() && search.order@[k] == v by {
                if v == node {
                    assert(at <= at < search.order@.len() && search.order@[at as int] == v);
                } else {
                    let k = choose|k: int|
                        at + 1 <= k < search.order@.len() && search.order@[k] == v;
                    assert(at <= k < search.order@.len() && search.order@[k] == v);
                }
            }
            settled = wider;
        }
    }
    proof {
        assert forall|v: u32| #[trigger] g.contains_key(v) implies totals@[v] == start[v]
            + dependency(g, source, v, m) by {
            if !settled.contains(v) {
                if v != source && reachable(g, source, v) {
                    assert(search.distances@.contains_key(v));
                    assert(search.order@.contains(v));
                    let k = choose|k: int| 0 <= k < search.order@.len() && search.order@[k] == v;
                    assert(settled.contains(search.order@[k]));
                }
                lemma_no_dependency(g, source, v, m);
            }
        }
    }
    true
}

/// The dependencies of the nodes of the graph on `v` sum to the sum over all
/// pairs of the shares that pass through `v`, and no sum of some of them is
/// negative or greater than that.
pub proof fn lemma_scaled_from_nodes(
    g: Map<u32, Vec<u32>>,
    v: u32,
    m: int,
    nodes: Seq<u32>,
    i: int,
)
    requires
        m >= 0,
        nodes.no_duplicates(),
        forall|k: u32| nodes.contains(k) <==> g.contains_key(k),
        0 <= i <= nodes.len(),
    ensures
        sum_seq(dependencies_on(g, v, m), nodes) == scaled_betweenness(g, v, m),
        0 <= sum_seq(dependencies_on(g, v, m), nodes.take(i)) <= scaled_betweenness(g, v, m),
{
    let deps = dependencies_on(g, v, m);
    assert forall|s: u32| !nodes.contains(s) implies #[trigger] deps(s) == 0 by {
        if s != v && reachable(g, s, v) {
            lemma_stranger(g, s, v);
        }
        lemma_no_dependency(g, s, v, m);
    }
    lemma_sum_seq_all(deps, nodes);
    lemma_scaled_by_source(g, v, m);
    assert forall|k: int| 0 <= k < nodes.len() implies deps(#[trigger] nodes[k]) >= 0 by {
        lemma_not_negative(g, nodes[k], v, m);
    }
    lemma_sum_seq_prefix(deps, nodes, i);
}

/// For every node of the graph the sum, over all ordered pairs of nodes, of
/// the share of their shortest paths that passes through it, as a multiple
/// of `1 / multiple`; or nothing where one of these sums does not fit the
/// machine type.
pub fn dependency_totals(graph: &HashMap<u32, Vec<u32>>, multiple: u128) -> (sums: Option<
    HashMap<u32, u128>,
>)
    requires
        well_formed(graph@),
        common_multiple(graph@, multiple as int),
    ensures
        sums matches Some(totals) ==> totals@.dom() == graph@.dom() && forall|v: u32| #[trigger]
            totals@.contains_key(v) ==> totals@[v] == scaled_betweenness(
                graph@,
                v,
                multiple as int,
            ),
        sums is None ==> exists|v: u32| #[trigger]
            graph@.contains_key(v) && scaled_betweenness(graph@, v, multiple as int) > u128::MAX,
{
    broadcast use vstd::std_specs::hash::group_hash_axioms;

    let ghost g = graph@;
    let ghost m = multiple as int;
    let nodes = key_list(graph);
    let mut totals: HashMap<u32, u128> = HashMap::new();
    let mut i: usize = 0;
    while i < nodes.len()
        invariant
            i <= nodes@.len(),
            forall|v: u32| totals@.contains_key(v) <==> exists|k: int| 0 <= k < i && nodes@[k] == v,
            forall|v: u32| #[trigger] totals@.contains_key(v) ==> totals@[v] == 0,
        decreases nodes.len() - i,
    {
        let ghost before = totals@;
        totals.insert(nodes[i], 0);
        proof {
            assert forall|v: u32| totals@.contains_key(v) <==> exists|k: int|
                0 <= k < i + 1 && nodes@[k] == v by {
                if before.contains_key(v) {
                    let k = choose|k: int| 0 <= k < i && nodes@[k] == v;
                    assert(0 <= k < i + 1 && nodes@[k] == v);
                }
                if v == nodes@[i as int] {
                    assert(0 <= i < i + 1 && nodes@[i as int] == v);
                }
            }
        }
        i += 1;
    }
    proof {
        assert(totals@.dom() =~= g.dom()) by {
            assert forall|v: u32| totals@.contains_key(v) <==> g.contains_key(v) by {
                if g.contains_key(v) {
                    assert(nodes@.contains(v));
                }
            }
        }
        assert(nodes@.take(0) =~= Seq::<u32>::empty());
    }
    let mut i: usize = 0;
    while i < nodes.len()
        invariant
            i <= nodes@.len(),
            g == graph@,
            m == multiple as int,
            well_formed(g),
            common_multiple(g, m),
            nodes@.no_duplicates(),
            forall|k: u32| nodes@.contains(k) <==> g.contains_key(k),
            totals@.dom() == g.dom(),
            forall|v: u32| #[trigger]
                g.contains_key(v) ==> totals@[v] == sum_seq(
                    dependencies_on(g, v, m),
                    nodes@.take(i as int),
                ),
        decreases nodes.len() - i,
    {
        let ghost before = totals@;
        let done = add_dependencies(nodes[i], graph, multiple, &mut totals);
        proof {
            assert forall|v: u32| #[trigger] g.contains_key(v) implies before[v] + dependency(
                g,
                nodes@[i as int],
                v,
                m,
            ) == sum_seq(dependencies_on(g, v, m), nodes@.take(i + 1)) by {
                lemma_sum_seq_step(dependencies_on(g, v, m), nodes@, i as int);
            }
        }
        if !done {
            proof {
                let v = choose|v: u32| #[trigger]
                    g.contains_key(v) && before[v] + dependency(g, nodes@[i as int], v, m)
                        > u128::MAX;
                lemma_scaled_from_nodes(g, v, m, nodes@, i + 1);
            }
            return None;
        }
        i += 1;
    }
    proof {
        assert(nodes@.take(i as int) == nodes@);
        assert forall|v: u32| #[trigger] totals@.contains_key(v) implies totals@[v]
            == scaled_betweenness(g, v, m) by {
            lemma_scaled_from_nodes(g, v, m, nodes@, 0);
        }
    }
    Some(totals)
}

/// `m` is a common multiple of the numbers of shortest paths for which every
/// betweenness centrality of the graph, as a quotient with the denominator
/// `2 * m`, fits the machine type.
pub open spec fn fits(g: Map<u32, Vec<u32>>, m: int) -> bool {
    &&& common_multiple(g, m)
    &&& 2 * m <= u128::MAX
    &&& forall|v: u32| #[trigger] g.contains_key(v) ==> scaled_betweenness(g, v, m) <= u128::MAX
}

/// The betweenness centrality of `v` as a quotient with the denominator
/// `2 * m`: the sum, over all unordered pairs of other nodes that a walk
/// joins, of the share of their shortest paths that passes through `v`.
pub open spec fn betweenness(g: Map<u32, Vec<u32>>, v: u32, m: int) -> Ratio {
    Ratio { num: scaled_betweenness(g, v, m) as u128, den: (2 * m) as u128 }
}

/// The scores are the betweenness centralities of the nodes of the graph,
/// all with the denominator `2 * m`, where `m` is the least common multiple
/// of the numbers of shortest paths.
pub open spec fn is_betweenness(g: Map<u32, Vec<u32>>, scores: Map<u32, Ratio>, m: int) -> bool {
    &&& least_common_multiple(g, m)
    &&& fits(g, m)
    &&& scores.dom() == g.dom()
    &&& forall|v: u32| #[trigger] scores.contains_key(v) ==> scores[v] == betweenness(g, v, m)
    &&& forall|v: u32| #[trigger] scores.contains_key(v) ==> scores[v].wf()
}

/// The betweenness centrality of every node.
///
/// For each node it is the sum, over all pairs of other nodes that a walk
/// joins, of the share of the shortest paths between the two that pass
/// through the node. The scores are exact quotients with one denominator,
/// twice the least common multiple of the numbers of shortest paths. There
/// is no result where no such quotients fit the machine type.
pub fn calculate_betweenness_centrality(graph: &HashMap<u32, Vec<u32>>) -> (scores: Option<
    HashMap<u32, Ratio>,
>)
    requires
        well_formed(graph@),
    ensures
        match scores {
            Some(found) => exists|m: int| is_betweenness(graph@, found@, m),
            None => forall|m: int| !fits(graph@, m),
        },
{
    broadcast use vstd::std_specs::hash::group_hash_axioms;

    let ghost g = graph@;
    let least = match path_count_lcm(graph) {
        Some(least) => least,
        None => {
            assert forall|k: int| !fits(g, k) by {
                if common_multiple(g, k) {
                    assert(k > u128::MAX);
                }
            }
            return None;
        },
    };
    let ghost m = least as int;
    let twice = match least.checked_mul(2) {
        Some(twice) => twice,
        None => {
            proof {
                assert forall|k: int| !fits(g, k) by {
                    if common_multiple(g, k) {
                        assert(is_multiple(k, m));
                        lemma_multiple_is_large(k, m);
                    }
                }
            }
            return None;
        },
    };
    let totals = match dependency_totals(graph, least) {
        Some(totals) => totals,
        None => {
            proof {
                let v = choose|v: u32| #[trigger]
                    g.contains_key(v) && scaled_betweenness(g, v, m) > u128::MAX;
                assert forall|k: int| !fits(g, k) by {
                    if common_multiple(g, k) {
                        assert(is_multiple(k, m));
                        lemma_scaled_grows(g, v, m, k);
                    }
                }
            }
            return None;
        },
    };
    let nodes = key_list(graph);
    let mut scores: HashMap<u32, Ratio> = HashMap::new();
    let mut i: usize = 0;
    while i < nodes.len()
        invariant
            i <= nodes@.len(),
            g == graph@,
            m == least as int,
            twice == 2 * m,
            forall|k: u32| nodes@.contains(k) <==> g.contains_key(k),
            totals@.dom() == g.dom(),
            forall|v: u32| #[trigger]
                totals@.contains_key(v) ==> totals@[v] == scaled_betweenness(g, v, m),
            forall|v: u32| scores@.contains_key(v) <==> exists|k: int| 0 <= k < i && nodes@[k] == v,
            forall|v: u32| #[trigger] scores@.contains_key(v) ==> scores@[v] == betweenness(g, v, m),
        decreases nodes.len() - i,
    {
        let node = nodes[i];
        assert(nodes@.contains(node));
        assert(totals@.contains_key(node));
        let num = *totals.get(&node).unwrap();
        let ghost before = scores@;
        scores.insert(node, Ratio { num, den: twice });
        proof {
            assert forall|v: u32| scores@.contains_key(v) <==> exists|k: int|
                0 <= k < i + 1 && nodes@[k] == v by {
                if before.contains_key(v) {
                    let k = choose|k: int| 0 <= k < i && nodes@[k] == v;
                    assert(0 <= k < i + 1 && nodes@[k] == v);
                }
                if v == node {
                    assert(0 <= i < i + 1 && nodes@[i as int] == v);
                }
            }
        }
        i += 1;
    }
    proof {
        assert(scores@.dom() =~= g.dom()) by {
            assert forall|v: u32| scores@.contains_key(v) <==> g.contains_key(v) by {
                if g.contains_key(v) {
                    assert(nodes@.contains(v));
                }
            }
        }
        assert forall|v: u32| #[trigger] g.contains_key(v) implies scaled_betweenness(g, v, m)
            <= u128::MAX by {
            assert(totals@.contains_key(v));
        }
        assert(fits(g, m));
        assert(is_betweenness(g, scores@, m));
    }
    let found = Some(scores);
    proof {
        assert(is_betweenness(graph@, found->0@, m));
    }
    found
}

} // verus!
