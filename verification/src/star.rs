//! The centralities of a star: one centre joined to every leaf, and no leaf
//! to another.

use crate::betweenness::{
    betweenness, common_multiple, covers, fits, is_betweenness, least_common_multiple,
    lemma_least_is_one, lemma_sigma, lemma_stranger, on_path, scaled_betweenness, share, shares,
    sigma, walks, walks_by_last_hop,
};
use crate::centrality::{degree_centrality, is_arc, lemma_degree_counts_arcs};
use crate::graph::{adjacent, degree, well_formed};
use crate::numbers::is_multiple;
use crate::paths::{
    dist, is_dist, lemma_dist, lemma_dist_symmetric, lemma_dist_zero, lemma_last_hop,
    lemma_node_count_bound, lemma_one_more_hop, lemma_zero_hops, reachable, reachable_in,
};
use crate::ratio::Ratio;
use crate::stats::{is_member, lemma_member_count};
use crate::sums::{
    id_count, lemma_sum_all_eq, lemma_sum_all_single, lemma_sum_below_const,
    lemma_sum_below_scale, row, row_sums,
};
use vstd::prelude::*;

verus! {

/// The graph is a star with the centre `c` and the given leaves: its nodes
/// are the centre and the leaves, of which there is one at least, and two
/// nodes are joined exactly when one is the centre and the other a leaf.
pub open spec fn is_star(g: Map<u32, Vec<u32>>, c: u32, leaves: Set<u32>) -> bool {
    &&& leaves.finite()
    &&& leaves.len() >= 1
    &&& !leaves.contains(c)
    &&& g.dom().finite()
    &&& forall|v: u32| #[trigger] g.contains_key(v) <==> v == c || leaves.contains(v)
    &&& forall|u: u32, v: u32| #[trigger]
        adjacent(g, u, v) <==> (u == c && leaves.contains(v)) || (v == c && leaves.contains(u))
}

/// One hop reaches exactly what is joined, and there is one walk of one hop
/// to a node that is joined and none to any other.
pub proof fn lemma_one_hop(g: Map<u32, Vec<u32>>, s: u32, t: u32)
    ensures
        reachable_in(g, s, t, 1) <==> adjacent(g, s, t),
        walks(g, s, t, 1) == if adjacent(g, s, t) {
            1int
        } else {
            0int
        },
{
    lemma_zero_hops(g, s, s);
    if adjacent(g, s, t) {
        lemma_one_more_hop(g, s, s, t, 0);
    }
    if reachable_in(g, s, t, 1) {
        let u = lemma_last_hop(g, s, t, 0);
        lemma_zero_hops(g, s, u);
    }
    let by_hop = walks_by_last_hop(g, s, t, 1);
    assert forall|u: u32| u != s implies #[trigger] by_hop(u) == 0 by {
        assert(walks(g, s, u, 0) == 0);
    }
    lemma_sum_all_single(by_hop, s);
    assert(walks(g, s, s, 0) == 1);
}

/// In a star the centre and a leaf are one hop apart and two leaves two
/// hops; nothing else is reached from a node but the node itself; and
/// between any two nodes that a walk joins there is one shortest path.
pub proof fn lemma_star_paths(g: Map<u32, Vec<u32>>, c: u32, leaves: Set<u32>, s: u32, t: u32)
    requires
        is_star(g, c, leaves),
    ensures
        reachable(g, s, t) <==> s == t || (g.contains_key(s) && g.contains_key(t)),
        reachable(g, s, t) ==> sigma(g, s, t) == 1,
        s == t ==> dist(g, s, t) == 0,
        s != t && g.contains_key(s) && g.contains_key(t) ==> dist(g, s, t) == if s == c || t == c {
            1nat
        } else {
            2nat
        },
{
    reveal(sigma);
    lemma_dist_zero(g, s, t);
    lemma_sigma(g, s, s);
    if s != t {
        lemma_zero_hops(g, s, t);
        lemma_one_hop(g, s, t);
        if g.contains_key(s) && g.contains_key(t) {
            if s == c || t == c {
                assert(adjacent(g, s, t));
                assert(reachable(g, s, t));
                assert(is_dist(g, s, t, 1)) by {
                    assert forall|j: nat| j < 1 implies !reachable_in(g, s, t, j) by {}
                }
                lemma_dist(g, s, t);
            } else {
                assert(adjacent(g, s, c));
                assert(adjacent(g, c, t));
                lemma_one_hop(g, s, c);
                lemma_one_more_hop(g, s, c, t, 1);
                assert(reachable(g, s, t));
                assert(!adjacent(g, s, t));
                assert(is_dist(g, s, t, 2)) by {
                    assert forall|j: nat| j < 2 implies !reachable_in(g, s, t, j) by {}
                }
                lemma_dist(g, s, t);
                let by_hop = walks_by_last_hop(g, s, t, 2);
                assert forall|u: u32| u != c implies #[trigger] by_hop(u) == 0 by {
                    assert(!adjacent(g, u, t));
                }
                lemma_sum_all_single(by_hop, c);
            }
        } else if reachable(g, s, t) {
            if !g.contains_key(s) {
                lemma_stranger(g, s, t);
            } else {
                lemma_dist_symmetric(g, s, t);
                lemma_stranger(g, t, s);
            }
        }
    }
}

/// In a star every number of shortest paths is one, so that one is their
/// least common multiple.
pub proof fn lemma_star_multiple(g: Map<u32, Vec<u32>>, c: u32, leaves: Set<u32>)
    requires
        is_star(g, c, leaves),
    ensures
        least_common_multiple(g, 1),
{
    assert forall|s: u32| #[trigger] covers(g, 1, s) by {
        assert forall|t: u32| reachable(g, s, t) implies #[trigger] is_multiple(
            1,
            sigma(g, s, t),
        ) by {
            lemma_star_paths(g, c, leaves, s, t);
        }
    }
    assert forall|k: int| #[trigger] common_multiple(g, k) implies is_multiple(k, 1) by {}
}

/// One for every leaf other than `s`, zero for the other nodes.
pub open spec fn other_leaves(leaves: Set<u32>, s: u32) -> spec_fn(u32) -> int {
    is_member(leaves.remove(s))
}

/// In a star with `k` leaves the shares that pass through the centre sum to
/// `m` for each of the `k * (k - 1)` ordered pairs of leaves, and none
/// passes through a leaf.
pub proof fn lemma_star_scaled(g: Map<u32, Vec<u32>>, c: u32, leaves: Set<u32>, v: u32, m: int)
    requires
        is_star(g, c, leaves),
    ensures
        scaled_betweenness(g, c, m) == m * (leaves.len() * (leaves.len() - 1)),
        leaves.contains(v) ==> scaled_betweenness(g, v, m) == 0,
{
    reveal(scaled_betweenness);
    let n = id_count();
    let k = leaves.len() as int;
    let through = shares(g, c, m);
    let members = is_member(leaves);
    let rows = row_sums(through, n);
    let scaled = |s: u32| (m * (k - 1)) * members(s);
    assert forall|s: u32| s < n implies #[trigger] rows(s) == (m * (k - 1)) * members(s) by {
        let others = other_leaves(leaves, s);
        if leaves.contains(s) {
            assert forall|t: u32| t < n implies #[trigger] row(through, s)(t) == m * others(t) by {
                lemma_star_paths(g, c, leaves, s, c);
                lemma_star_paths(g, c, leaves, c, t);
                lemma_star_paths(g, c, leaves, s, t);
                if leaves.contains(t) && t != s {
                    assert(on_path(g, s, c, t));
                    assert(share(g, s, t, c, m) == 1 * 1 * (m / 1));
                    assert(m * 1 == m);
                } else {
                    assert(m * 0 == 0);
                }
            }
            lemma_sum_below_scale(others, row(through, s), m, n);
            lemma_member_count(leaves.remove(s));
            assert((m * (k - 1)) * 1 == m * (k - 1)) by (nonlinear_arith);
        } else {
            assert forall|t: u32| t < n implies #[trigger] row(through, s)(t) == 0 by {
                lemma_star_paths(g, c, leaves, s, c);
            }
            lemma_sum_below_const(row(through, s), 0, n);
            assert((m * (k - 1)) * 0 == 0) by (nonlinear_arith);
        }
    }
    lemma_sum_below_scale(members, rows, m * (k - 1), n);
    lemma_member_count(leaves);
    assert((m * (k - 1)) * k == m * (k * (k - 1))) by (nonlinear_arith);
    if leaves.contains(v) {
        let none = shares(g, v, m);
        assert forall|s: u32| s < n implies #[trigger] row_sums(none, n)(s) == 0 by {
            assert forall|t: u32| t < n implies #[trigger] row(none, s)(t) == 0 by {
                lemma_star_paths(g, c, leaves, s, v);
                lemma_star_paths(g, c, leaves, v, t);
                lemma_star_paths(g, c, leaves, s, t);
            }
            lemma_sum_below_const(row(none, s), 0, n);
        }
        lemma_sum_below_const(row_sums(none, n), 0, n);
    }
}

/// The betweenness centralities of a star with `k` leaves can be stated
/// exactly, and they are `k * (k - 1) / 2` for the centre and zero for every
/// leaf.
pub proof fn lemma_star_betweenness(
    g: Map<u32, Vec<u32>>,
    c: u32,
    leaves: Set<u32>,
    scores: Map<u32, Ratio>,
    m: int,
)
    requires
        is_star(g, c, leaves),
        is_betweenness(g, scores, m),
    ensures
        fits(g, 1),
        m == 1,
        scores[c] == (Ratio { num: (leaves.len() * (leaves.len() - 1)) as u128, den: 2 }),
        forall|v: u32| leaves.contains(v) ==> #[trigger] scores[v] == (Ratio { num: 0, den: 2 }),
{
    lemma_star_fits(g, c, leaves);
    lemma_star_multiple(g, c, leaves);
    lemma_least_is_one(g, m, 1);
    lemma_star_scaled(g, c, leaves, c, 1);
    assert(scores.contains_key(c));
    assert(scores[c] == betweenness(g, c, 1));
    assert forall|v: u32| leaves.contains(v) implies #[trigger] scores[v] == (Ratio {
        num: 0,
        den: 2,
    }) by {
        lemma_star_scaled(g, c, leaves, v, 1);
        assert(scores.contains_key(v));
        assert(scores[v] == betweenness(g, v, 1));
    }
}

/// The betweenness centralities of a star fit the machine type with the
/// denominator two.
pub proof fn lemma_star_fits(g: Map<u32, Vec<u32>>, c: u32, leaves: Set<u32>)
    requires
        is_star(g, c, leaves),
    ensures
        fits(g, 1),
        leaves.len() * (leaves.len() - 1) <= u128::MAX,
{
    lemma_star_multiple(g, c, leaves);
    lemma_node_count_bound(leaves);
    let k = leaves.len() as int;
    assert(k * (k - 1) <= 0x1_0000_0000 * 0x1_0000_0000) by (nonlinear_arith)
        requires
            1 <= k <= 0x1_0000_0000,
    ;
    assert forall|v: u32| #[trigger] g.contains_key(v) implies scaled_betweenness(g, v, 1)
        <= u128::MAX by {
        lemma_star_scaled(g, c, leaves, v, 1);
        assert(1 * (k * (k - 1)) == k * (k - 1));
    }
}

/// The degree centralities of a star with `k` leaves are one for the
/// centre, as `k / k`, and `1 / k` for every leaf.
pub proof fn lemma_star_degrees(g: Map<u32, Vec<u32>>, c: u32, leaves: Set<u32>, v: u32)
    requires
        is_star(g, c, leaves),
        well_formed(g),
    ensures
        g.dom().len() == leaves.len() + 1,
        degree_centrality(g, c) == (Ratio { num: leaves.len() as u128, den: leaves.len() as u128 }),
        leaves.contains(v) ==> degree_centrality(g, v) == (Ratio {
            num: 1,
            den: leaves.len() as u128,
        }),
{
    assert(g.dom() =~= leaves.insert(c));
    lemma_node_count_bound(g.dom());
    lemma_degree_counts_arcs(g, c);
    let arcs = row(is_arc(g), c);
    lemma_sum_all_eq(arcs, is_member(leaves));
    lemma_member_count(leaves);
    if leaves.contains(v) {
        lemma_degree_counts_arcs(g, v);
        let few = row(is_arc(g), v);
        assert forall|u: u32| u != c implies #[trigger] few(u) == 0 by {}
        lemma_sum_all_single(few, c);
    }
}

} // verus!
