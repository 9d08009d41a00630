//! Betweenness centrality does not depend on how the nodes are named.

use crate::betweenness::{
    common_multiple, covers, fits, is_betweenness, least_common_multiple, lemma_least_is_one,
    on_path, scaled_betweenness, share, shares, sigma, walks, walks_by_last_hop,
};
use crate::graph::adjacent;
use crate::numbers::is_multiple;
use crate::paths::{dist, is_dist, lemma_dist, reachable, reachable_in, walk_of};
use crate::ratio::Ratio;
use crate::sums::{are_inverse, id_count, lemma_sum_all_renamed, row, row_sums};
use vstd::prelude::*;

verus! {

/// `h` is `g` with every identifier `u` renamed to `via(u)`, and `back` takes
/// the new names to the old ones.
pub open spec fn is_renaming(
    g: Map<u32, Vec<u32>>,
    h: Map<u32, Vec<u32>>,
    via: spec_fn(u32) -> u32,
    back: spec_fn(u32) -> u32,
) -> bool {
    &&& are_inverse(via, back)
    &&& forall|u: u32, v: u32| adjacent(g, u, v) == #[trigger] adjacent(h, via(u), via(v))
    &&& forall|u: u32| g.contains_key(u) == #[trigger] h.contains_key(via(u))
}

/// The graph that has been renamed is a renaming of the other, by the names
/// taken back.
pub proof fn lemma_renaming_back(
    g: Map<u32, Vec<u32>>,
    h: Map<u32, Vec<u32>>,
    via: spec_fn(u32) -> u32,
    back: spec_fn(u32) -> u32,
)
    requires
        is_renaming(g, h, via, back),
    ensures
        is_renaming(h, g, back, via),
{
    assert forall|a: u32, b: u32| adjacent(h, a, b) == #[trigger] adjacent(g, back(a), back(b)) by {
        assert(via(back(a)) == a && via(back(b)) == b);
        assert(adjacent(g, back(a), back(b)) == adjacent(h, via(back(a)), via(back(b))));
    }
    assert forall|a: u32| h.contains_key(a) == #[trigger] g.contains_key(back(a)) by {
        assert(via(back(a)) == a);
        assert(g.contains_key(back(a)) == h.contains_key(via(back(a))));
    }
}

/// A walk that is renamed is a walk of the renamed graph.
proof fn lemma_walk_renamed(
    g: Map<u32, Vec<u32>>,
    h: Map<u32, Vec<u32>>,
    via: spec_fn(u32) -> u32,
    back: spec_fn(u32) -> u32,
    s: u32,
    t: u32,
    k: nat,
)
    requires
        is_renaming(g, h, via, back),
        reachable_in(g, s, t, k),
    ensures
        reachable_in(h, via(s), via(t), k),
{
    let w = choose|w: Seq<u32>| walk_of(g, s, t, w, k);
    let x = w.map_values(via);
    assert forall|i: int| 0 <= i < x.len() - 1 implies adjacent(h, #[trigger] x[i], x[i + 1]) by {
        assert(adjacent(g, w[i], w[i + 1]));
        assert(adjacent(h, via(w[i]), via(w[i + 1])));
    }
    assert(walk_of(h, via(s), via(t), x, k));
}

/// Renaming keeps what is reached, and in how many hops.
pub proof fn lemma_reach_renamed(
    g: Map<u32, Vec<u32>>,
    h: Map<u32, Vec<u32>>,
    via: spec_fn(u32) -> u32,
    back: spec_fn(u32) -> u32,
    s: u32,
    t: u32,
)
    requires
        is_renaming(g, h, via, back),
    ensures
        forall|k: nat| #[trigger] reachable_in(g, s, t, k) == reachable_in(h, via(s), via(t), k),
        reachable(g, s, t) == reachable(h, via(s), via(t)),
        reachable(g, s, t) ==> dist(g, s, t) == dist(h, via(s), via(t)),
{
    lemma_renaming_back(g, h, via, back);
    assert(back(via(s)) == s && back(via(t)) == t);
    let a = via(s);
    let b = via(t);
    assert forall|k: nat| #[trigger] reachable_in(g, s, t, k) == reachable_in(h, a, b, k) by {
        if reachable_in(g, s, t, k) {
            lemma_walk_renamed(g, h, via, back, s, t, k);
        }
        if reachable_in(h, via(s), via(t), k) {
            lemma_walk_renamed(h, g, back, via, via(s), via(t), k);
        }
    }
    if reachable(g, s, t) {
        let k = choose|k: nat| reachable_in(g, s, t, k);
        assert(reachable_in(h, a, b, k));
        lemma_dist(g, s, t);
        lemma_dist(h, a, b);
        let d = dist(g, s, t);
        assert(is_dist(h, a, b, d)) by {
            assert(reachable_in(h, a, b, d));
            assert forall|j: nat| j < d implies !#[trigger] reachable_in(h, a, b, j) by {
                assert(!reachable_in(g, s, t, j));
            }
        }
    }
    if reachable(h, a, b) {
        let k = choose|k: nat| reachable_in(h, a, b, k);
        assert(reachable_in(g, s, t, k));
    }
}

/// Renaming keeps the number of walks.
pub proof fn lemma_walks_renamed(
    g: Map<u32, Vec<u32>>,
    h: Map<u32, Vec<u32>>,
    via: spec_fn(u32) -> u32,
    back: spec_fn(u32) -> u32,
    s: u32,
    t: u32,
    k: nat,
)
    requires
        is_renaming(g, h, via, back),
    ensures
        walks(g, s, t, k) == walks(h, via(s), via(t), k),
    decreases k,
{
    assert(back(via(s)) == s && back(via(t)) == t);
    if k > 0 {
        let old_hops = walks_by_last_hop(g, s, t, k);
        let new_hops = walks_by_last_hop(h, via(s), via(t), k);
        assert forall|u: u32| #[trigger] old_hops(u) == new_hops(via(u)) by {
            assert(adjacent(g, u, t) == adjacent(h, via(u), via(t)));
            lemma_walks_renamed(g, h, via, back, s, u, (k - 1) as nat);
        }
        lemma_sum_all_renamed(old_hops, new_hops, via, back);
    }
}

/// Renaming keeps the number of shortest paths.
pub proof fn lemma_sigma_renamed(
    g: Map<u32, Vec<u32>>,
    h: Map<u32, Vec<u32>>,
    via: spec_fn(u32) -> u32,
    back: spec_fn(u32) -> u32,
    s: u32,
    t: u32,
)
    requires
        is_renaming(g, h, via, back),
    ensures
        sigma(g, s, t) == sigma(h, via(s), via(t)),
{
    reveal(sigma);
    lemma_reach_renamed(g, h, via, back, s, t);
    if reachable(g, s, t) {
        lemma_walks_renamed(g, h, via, back, s, t, dist(g, s, t));
    }
}

/// Renaming keeps the share of the shortest paths between two nodes that
/// passes through a third.
pub proof fn lemma_share_renamed(
    g: Map<u32, Vec<u32>>,
    h: Map<u32, Vec<u32>>,
    via: spec_fn(u32) -> u32,
    back: spec_fn(u32) -> u32,
    s: u32,
    t: u32,
    v: u32,
    m: int,
)
    requires
        is_renaming(g, h, via, back),
    ensures
        share(g, s, t, v, m) == share(h, via(s), via(t), via(v), m),
{
    assert(back(via(s)) == s && back(via(t)) == t && back(via(v)) == v);
    lemma_reach_renamed(g, h, via, back, s, v);
    lemma_reach_renamed(g, h, via, back, v, t);
    lemma_reach_renamed(g, h, via, back, s, t);
    lemma_sigma_renamed(g, h, via, back, s, v);
    lemma_sigma_renamed(g, h, via, back, v, t);
    lemma_sigma_renamed(g, h, via, back, s, t);
    assert(on_path(g, s, v, t) == on_path(h, via(s), via(v), via(t)));
}

/// Renaming keeps the sum of the shares that pass through a node.
pub proof fn lemma_scaled_renamed(
    g: Map<u32, Vec<u32>>,
    h: Map<u32, Vec<u32>>,
    via: spec_fn(u32) -> u32,
    back: spec_fn(u32) -> u32,
    v: u32,
    m: int,
)
    requires
        is_renaming(g, h, via, back),
    ensures
        scaled_betweenness(g, v, m) == scaled_betweenness(h, via(v), m),
{
    reveal(scaled_betweenness);
    let n = id_count();
    let olds = shares(g, v, m);
    let news = shares(h, via(v), m);
    assert forall|s: u32| #[trigger] row_sums(olds, n)(s) == row_sums(news, n)(via(s)) by {
        assert forall|t: u32| #[trigger] row(olds, s)(t) == row(news, via(s))(via(t)) by {
            lemma_share_renamed(g, h, via, back, s, t, v, m);
        }
        lemma_sum_all_renamed(row(olds, s), row(news, via(s)), via, back);
    }
    lemma_sum_all_renamed(row_sums(olds, n), row_sums(news, n), via, back);
}

/// A common multiple of the numbers of shortest paths of a graph is one of
/// the renamed graph.
proof fn lemma_multiple_renamed(
    g: Map<u32, Vec<u32>>,
    h: Map<u32, Vec<u32>>,
    via: spec_fn(u32) -> u32,
    back: spec_fn(u32) -> u32,
    m: int,
)
    requires
        is_renaming(g, h, via, back),
        common_multiple(g, m),
    ensures
        common_multiple(h, m),
{
    assert forall|a: u32| #[trigger] covers(h, m, a) by {
        assert forall|b: u32| reachable(h, a, b) implies #[trigger] is_multiple(m, sigma(h, a, b)) by {
            let s = back(a);
            let t = back(b);
            assert(via(s) == a && via(t) == b);
            lemma_reach_renamed(g, h, via, back, s, t);
            lemma_sigma_renamed(g, h, via, back, s, t);
            assert(covers(g, m, s));
            assert(is_multiple(m, sigma(g, s, t)));
        }
    }
}

/// Renaming keeps which multiples fit, and which is the least.
pub proof fn lemma_fits_renamed(
    g: Map<u32, Vec<u32>>,
    h: Map<u32, Vec<u32>>,
    via: spec_fn(u32) -> u32,
    back: spec_fn(u32) -> u32,
    m: int,
)
    requires
        is_renaming(g, h, via, back),
    ensures
        common_multiple(g, m) == common_multiple(h, m),
        least_common_multiple(g, m) == least_common_multiple(h, m),
        fits(g, m) == fits(h, m),
{
    lemma_renaming_back(g, h, via, back);
    if common_multiple(g, m) {
        lemma_multiple_renamed(g, h, via, back, m);
    }
    if common_multiple(h, m) {
        lemma_multiple_renamed(h, g, back, via, m);
    }
    if least_common_multiple(g, m) {
        assert forall|k: int| #[trigger] common_multiple(h, k) implies is_multiple(k, m) by {
            lemma_multiple_renamed(h, g, back, via, k);
        }
    }
    if least_common_multiple(h, m) {
        assert forall|k: int| #[trigger] common_multiple(g, k) implies is_multiple(k, m) by {
            lemma_multiple_renamed(g, h, via, back, k);
        }
    }
    if fits(g, m) {
        assert forall|a: u32| #[trigger] h.contains_key(a) implies scaled_betweenness(h, a, m)
            <= u128::MAX by {
            let v = back(a);
            assert(via(v) == a);
            assert(g.contains_key(v) == h.contains_key(via(v)));
            lemma_scaled_renamed(g, h, via, back, v, m);
        }
    }
    if fits(h, m) {
        assert forall|v: u32| #[trigger] g.contains_key(v) implies scaled_betweenness(g, v, m)
            <= u128::MAX by {
            assert(g.contains_key(v) == h.contains_key(via(v)));
            lemma_scaled_renamed(g, h, via, back, v, m);
        }
    }
}

/// Betweenness centrality is invariant under renaming: where the nodes of a
/// graph are renamed one to one, the scores of the renamed graph are those
/// of the graph, each under the new name of its node, numerator for
/// numerator and with the same denominator.
pub proof fn lemma_betweenness_renamed(
    g: Map<u32, Vec<u32>>,
    h: Map<u32, Vec<u32>>,
    via: spec_fn(u32) -> u32,
    back: spec_fn(u32) -> u32,
    scores: Map<u32, Ratio>,
    renamed: Map<u32, Ratio>,
    m: int,
    k: int,
)
    requires
        is_renaming(g, h, via, back),
        is_betweenness(g, scores, m),
        is_betweenness(h, renamed, k),
    ensures
        m == k,
        forall|v: u32| #[trigger]
            scores.contains_key(v) ==> renamed.contains_key(via(v)) && renamed[via(v)] == scores[v],
{
    lemma_fits_renamed(g, h, via, back, m);
    lemma_least_is_one(h, m, k);
    assert forall|v: u32| #[trigger] scores.contains_key(v) implies renamed.contains_key(via(v))
        && renamed[via(v)] == scores[v] by {
        assert(g.contains_key(v) == h.contains_key(via(v)));
        lemma_scaled_renamed(g, h, via, back, v, m);
    }
}

} // verus!
