//! Path-length statistics over all pairs of nodes that a walk joins.

use crate::graph::key_list;
use crate::paths::{bfs, dist, is_distance_map, lemma_dist, lemma_node_count_bound, lemma_zero_hops, reachable};
use crate::numbers::{is_multiple, lcm, lemma_multiple_is_large, lemma_multiple_transitive};
use crate::ratio::Ratio;
use crate::sums::{
    id_count, lemma_sum_all_bounds, lemma_sum_seq_prefix, lemma_sum_below_const, lemma_sum_below_differ_at, lemma_sum_below_eq,
    lemma_sum_below_le, lemma_sum_below_scale, lemma_sum_seq_all, lemma_sum_seq_step, sum_all,
    sum_seq,
};
use std::collections::HashMap;
use vstd::prelude::*;

verus! {

/// The hop distance from `s` to `t`, or zero where no walk joins them.
pub open spec fn hops(g: Map<u32, Vec<u32>>, s: u32, t: u32) -> int {
    if reachable(g, s, t) {
        dist(g, s, t) as int
    } else {
        0
    }
}

/// The distance from `s`, as a function of the node reached.
pub open spec fn hops_from(g: Map<u32, Vec<u32>>, s: u32) -> spec_fn(u32) -> int {
    |t: u32| hops(g, s, t)
}

/// One for every node other than `s` that `s` reaches, zero for the others.
pub open spec fn is_other_reached(g: Map<u32, Vec<u32>>, s: u32) -> spec_fn(u32) -> int {
    |t: u32|
        if t != s && reachable(g, s, t) {
            1int
        } else {
            0int
        }
}

/// The sum of the distances from `s` to every node that it reaches.
pub open spec fn distance_sum_from(g: Map<u32, Vec<u32>>, s: u32) -> int {
    sum_all(hops_from(g, s))
}

/// The number of nodes other than `s` that `s` reaches.
pub open spec fn others_reached_from(g: Map<u32, Vec<u32>>, s: u32) -> int {
    sum_all(is_other_reached(g, s))
}

/// The distance sum of each node of the graph, zero for other identifiers.
pub open spec fn distance_sums(g: Map<u32, Vec<u32>>) -> spec_fn(u32) -> int {
    |s: u32|
        if g.contains_key(s) {
            distance_sum_from(g, s)
        } else {
            0
        }
}

/// For each node of the graph the number of other nodes that it reaches,
/// zero for other identifiers.
pub open spec fn reach_counts(g: Map<u32, Vec<u32>>) -> spec_fn(u32) -> int {
    |s: u32|
        if g.contains_key(s) {
            others_reached_from(g, s)
        } else {
            0
        }
}

/// The sum of the distances over all ordered pairs of a node of the graph
/// and a node that it reaches.
pub open spec fn total_distance(g: Map<u32, Vec<u32>>) -> int {
    sum_all(distance_sums(g))
}

/// The number of ordered pairs of a node of the graph and another node that
/// it reaches.
pub open spec fn reachable_pairs(g: Map<u32, Vec<u32>>) -> int {
    sum_all(reach_counts(g))
}

/// The value that a distance map holds for a node, zero where it holds none.
pub open spec fn entry_of(d: Map<u32, u32>) -> spec_fn(u32) -> int {
    |t: u32|
        if d.contains_key(t) {
            d[t] as int
        } else {
            0
        }
}

/// The sum of the values of a distance map.
pub open spec fn map_total(d: Map<u32, u32>) -> int {
    sum_all(entry_of(d))
}

/// One for every member of the set, zero for the others.
pub open spec fn is_member(nodes: Set<u32>) -> spec_fn(u32) -> int {
    |t: u32|
        if nodes.contains(t) {
            1int
        } else {
            0int
        }
}

/// Counting one for each member of a finite set of nodes gives its size.
pub proof fn lemma_member_count(nodes: Set<u32>)
    requires
        nodes.finite(),
    ensures
        sum_all(is_member(nodes)) == nodes.len(),
    decreases nodes.len(),
{
    if nodes.len() == 0 {
        assert(nodes =~= Set::empty());
        lemma_sum_below_const(is_member(nodes), 0, id_count());
    } else {
        let x = nodes.choose();
        let rest = nodes.remove(x);
        lemma_member_count(rest);
        lemma_sum_below_differ_at(is_member(nodes), is_member(rest), x, id_count());
    }
}

/// The distance map of `s` sums to the distance sum of `s` and holds one
/// entry more than `s` reaches other nodes.
pub proof fn lemma_distance_map_totals(g: Map<u32, Vec<u32>>, s: u32, d: Map<u32, u32>)
    requires
        is_distance_map(g, s, d),
    ensures
        map_total(d) == distance_sum_from(g, s),
        d.dom().len() == others_reached_from(g, s) + 1,
        0 <= others_reached_from(g, s) < id_count(),
        0 <= distance_sum_from(g, s) <= others_reached_from(g, s) * 0xFFFF_FFFF,
{
    let others = is_other_reached(g, s);
    let members = is_member(d.dom());
    let far = hops_from(g, s);
    assert forall|t: u32| t < id_count() implies #[trigger] entry_of(d)(t) == far(t) by {
        assert(d.contains_key(t) <==> reachable(g, s, t));
    }
    lemma_sum_below_eq(entry_of(d), far, id_count());
    lemma_zero_hops(g, s, s);
    assert(reachable(g, s, s));
    assert(d.contains_key(s));
    assert forall|t: u32| t != s implies #[trigger] members(t) == others(t) by {
        assert(d.contains_key(t) <==> reachable(g, s, t));
    }
    lemma_sum_below_differ_at(members, others, s, id_count());
    lemma_member_count(d.dom());
    lemma_node_count_bound(d.dom());
    let capped = |t: u32| 0xFFFF_FFFF * others(t);
    let zero = |t: u32| 0int;
    assert forall|t: u32| t < id_count() implies #[trigger] far(t) <= capped(t) && zero(t) <= far(
        t,
    ) && zero(t) <= others(t) by {
        if t == s {
            lemma_dist(g, s, s);
        } else if reachable(g, s, t) {
            assert(d.contains_key(t));
            assert(d[t] == dist(g, s, t));
        }
    }
    lemma_sum_below_le(far, capped, id_count());
    lemma_sum_below_scale(others, capped, 0xFFFF_FFFF, id_count());
    lemma_sum_below_le(zero, far, id_count());
    lemma_sum_below_le(zero, others, id_count());
    lemma_sum_below_const(zero, 0, id_count());
}

/// The sum of the distances of a distance map and the number of its entries.
pub fn distance_totals(distances: &HashMap<u32, u32>) -> (totals: (u64, u64))
    ensures
        totals.0 == map_total(distances@),
        totals.1 == distances@.dom().len(),
{
    broadcast use vstd::std_specs::hash::group_hash_axioms;

    let reached = key_list(distances);
    let ghost term = entry_of(distances@);
    proof {
        lemma_node_count_bound(distances@.dom());
        lemma_sum_seq_all(term, reached@);
        assert(reached@.take(reached@.len() as int) == reached@);
    }
    let mut sum: u64 = 0;
    let mut i: usize = 0;
    while i < reached.len()
        invariant
            i <= reached@.len() <= 0x1_0000_0000,
            forall|k: u32| reached@.contains(k) <==> distances@.contains_key(k),
            term == entry_of(distances@),
            sum == sum_seq(term, reached@.take(i as int)),
            sum <= i * 0xFFFF_FFFF,
        decreases reached.len() - i,
    {
        let t = reached[i];
        assert(reached@.contains(t));
        let hop = *distances.get(&t).unwrap();
        proof {
            lemma_sum_seq_step(term, reached@, i as int);
            assert(i * 0xFFFF_FFFF + 0xFFFF_FFFF == (i + 1) * 0xFFFF_FFFF) by (nonlinear_arith);
            assert((i + 1) * 0xFFFF_FFFF <= 0x1_0000_0000 * 0xFFFF_FFFF) by (nonlinear_arith)
                requires
                    i + 1 <= 0x1_0000_0000,
            ;
        }
        sum = sum + hop as u64;
        i += 1;
    }
    (sum, reached.len() as u64)
}

/// The mean distance from `s` to the other nodes that it reaches, as the sum
/// of those distances over their number. There is none where `s` reaches no
/// other node.
pub open spec fn mean_distance_from(g: Map<u32, Vec<u32>>, s: u32) -> Option<Ratio> {
    if others_reached_from(g, s) == 0 {
        None
    } else {
        Some(
            Ratio {
                num: distance_sum_from(g, s) as u128,
                den: others_reached_from(g, s) as u128,
            },
        )
    }
}

/// The mean distance over all ordered pairs of a node of the graph and
/// another node that it reaches, as the sum of the distances over the
/// number of pairs; zero where there is no such pair.
pub open spec fn average_path_length(g: Map<u32, Vec<u32>>) -> Ratio {
    if reachable_pairs(g) == 0 {
        Ratio { num: 0, den: 1 }
    } else {
        Ratio { num: total_distance(g) as u128, den: reachable_pairs(g) as u128 }
    }
}

/// For every node of the graph, the mean distance to the other nodes that it
/// reaches.
pub fn bfs_all_nodes(adj_list: &HashMap<u32, Vec<u32>>) -> (means: HashMap<u32, Option<Ratio>>)
    ensures
        means@.dom() == adj_list@.dom(),
        forall|s: u32| #[trigger]
            means@.contains_key(s) ==> means@[s] == mean_distance_from(adj_list@, s),
        forall|s: u32| #[trigger]
            means@.contains_key(s) ==> (means@[s] matches Some(mean) ==> mean.wf()),
{
    broadcast use vstd::std_specs::hash::group_hash_axioms;

    let nodes = key_list(adj_list);
    let mut means: HashMap<u32, Option<Ratio>> = HashMap::new();
    let mut i: usize = 0;
    while i < nodes.len()
        invariant
            i <= nodes@.len(),
            forall|k: u32| nodes@.contains(k) <==> adj_list@.contains_key(k),
            forall|s: u32|
                means@.contains_key(s) <==> exists|k: int| 0 <= k < i && nodes@[k] == s,
            forall|s: u32| #[trigger]
                means@.contains_key(s) ==> means@[s] == mean_distance_from(adj_list@, s),
            forall|s: u32| #[trigger]
                means@.contains_key(s) ==> (means@[s] matches Some(mean) ==> mean.wf()),
        decreases nodes.len() - i,
    {
        let node = nodes[i];
        let distances = bfs(node, adj_list);
        let (sum, entries) = distance_totals(&distances);
        proof {
            lemma_distance_map_totals(adj_list@, node, distances@);
        }
        let mean = if entries > 1 {
            Some(Ratio { num: sum as u128, den: (entries - 1) as u128 })
        } else {
            None
        };
        let ghost before = means@;
        means.insert(node, mean);
        proof {
            assert forall|s: u32|
                means@.contains_key(s) <==> exists|k: int| 0 <= k < i + 1 && nodes@[k] == s by {
                if before.contains_key(s) {
                    let k = choose|k: int| 0 <= k < i && nodes@[k] == s;
                    assert(0 <= k < i + 1 && nodes@[k] == s);
                }
                if s == node {
                    assert(0 <= i < i + 1 && nodes@[i as int] == s);
                }
            }
        }
        i += 1;
    }
    proof {
        assert(means@.dom() =~= adj_list@.dom()) by {
            assert forall|s: u32| means@.contains_key(s) <==> adj_list@.contains_key(s) by {
                if adj_list@.contains_key(s) {
                    assert(nodes@.contains(s));
                }
            }
        }
    }
    means
}

/// The average length of a shortest path, over all ordered pairs of a node of
/// the graph and another node that it reaches. A pair that no walk joins
/// counts for nothing. A graph without such a pair has the average zero.
pub fn calculate_average_path_length(graph: &HashMap<u32, Vec<u32>>) -> (average: Ratio)
    ensures
        average == average_path_length(graph@),
        average.wf(),
        0 <= total_distance(graph@) <= u128::MAX,
        0 <= reachable_pairs(graph@) <= u128::MAX,
{
    let nodes = key_list(graph);
    let ghost g = graph@;
    proof {
        lemma_node_count_bound(g.dom());
        lemma_sum_seq_all(distance_sums(g), nodes@);
        lemma_sum_seq_all(reach_counts(g), nodes@);
        assert(nodes@.take(nodes@.len() as int) == nodes@);
    }
    let mut total: u128 = 0;
    let mut pairs: u128 = 0;
    let mut i: usize = 0;
    while i < nodes.len()
        invariant
            i <= nodes@.len() <= 0x1_0000_0000,
            g == graph@,
            forall|k: u32| nodes@.contains(k) <==> g.contains_key(k),
            total == sum_seq(distance_sums(g), nodes@.take(i as int)),
            pairs == sum_seq(reach_counts(g), nodes@.take(i as int)),
            total <= i * 0x1_0000_0000_0000_0000,
            pairs <= i * 0x1_0000_0000,
        decreases nodes.len() - i,
    {
        let node = nodes[i];
        assert(nodes@.contains(node));
        let distances = bfs(node, graph);
        let (sum, entries) = distance_totals(&distances);
        proof {
            lemma_distance_map_totals(g, node, distances@);
            lemma_sum_seq_step(distance_sums(g), nodes@, i as int);
            lemma_sum_seq_step(reach_counts(g), nodes@, i as int);
            assert((i + 1) * 0x1_0000_0000_0000_0000 == i * 0x1_0000_0000_0000_0000
                + 0x1_0000_0000_0000_0000) by (nonlinear_arith);
            assert((i + 1) * 0x1_0000_0000 == i * 0x1_0000_0000 + 0x1_0000_0000)
                by (nonlinear_arith);
            assert((i + 1) * 0x1_0000_0000_0000_0000 <= 0x1_0000_0000
                * 0x1_0000_0000_0000_0000) by (nonlinear_arith)
                requires
                    i + 1 <= 0x1_0000_0000,
            ;
            assert((i + 1) * 0x1_0000_0000 <= 0x1_0000_0000 * 0x1_0000_0000) by (nonlinear_arith)
                requires
                    i + 1 <= 0x1_0000_0000,
            ;
        }
        total = total + sum as u128;
        pairs = pairs + (entries - 1) as u128;
        i += 1;
    }
    if pairs > 0 {
        Ratio { num: total, den: pairs }
    } else {
        Ratio { num: 0, den: 1 }
    }
}

/// Whether an average path length bears out the claim that any two people
/// are six or fewer steps apart: whether it is at most six.
pub fn validate_six_degrees(average_path_length: Ratio) -> (holds: bool)
    ensures
        holds == (average_path_length.num <= 6 * average_path_length.den),
        average_path_length.wf() ==> holds == (average_path_length.value() <= 6real),
{
    average_path_length.at_most(6)
}

/// `s` is a node of the graph that reaches another node, so that it has a
/// mean distance.
pub open spec fn is_counted(g: Map<u32, Vec<u32>>, s: u32) -> bool {
    g.contains_key(s) && others_reached_from(g, s) > 0
}

/// One for every node that has a mean distance, zero for the others.
pub open spec fn counted(g: Map<u32, Vec<u32>>) -> spec_fn(u32) -> int {
    |s: u32|
        if is_counted(g, s) {
            1int
        } else {
            0int
        }
}

/// The mean distance of every node that has one, as a multiple of `1 / m`;
/// zero for the others. It is exact where `m` is a multiple of the number
/// of nodes that the node reaches.
pub open spec fn scaled_means(g: Map<u32, Vec<u32>>, m: int) -> spec_fn(u32) -> int {
    |s: u32|
        if is_counted(g, s) {
            distance_sum_from(g, s) * (m / others_reached_from(g, s))
        } else {
            0
        }
}

/// The number of nodes that have a mean distance.
pub open spec fn counted_nodes(g: Map<u32, Vec<u32>>) -> int {
    sum_all(counted(g))
}

/// The sum of the mean distances, as a multiple of `1 / m`.
pub open spec fn scaled_mean_sum(g: Map<u32, Vec<u32>>, m: int) -> int {
    sum_all(scaled_means(g, m))
}

/// `m` is positive and a multiple of the number of other nodes that each
/// node reaches which reaches any.
pub open spec fn counts_multiple(g: Map<u32, Vec<u32>>, m: int) -> bool {
    &&& m > 0
    &&& forall|s: u32| #[trigger] is_counted(g, s) ==> is_multiple(m, others_reached_from(g, s))
}

/// `m` is the least of these multiples, which divides them all.
pub open spec fn least_counts_multiple(g: Map<u32, Vec<u32>>, m: int) -> bool {
    &&& counts_multiple(g, m)
    &&& forall|k: int| #[trigger] counts_multiple(g, k) ==> is_multiple(k, m)
}

/// With `m` as the common denominator of the mean distances, their sum and
/// the denominator of their mean fit the machine type.
pub open spec fn separation_fits(g: Map<u32, Vec<u32>>, m: int) -> bool {
    &&& counts_multiple(g, m)
    &&& scaled_mean_sum(g, m) <= u128::MAX
    &&& m * counted_nodes(g) <= u128::MAX
}

/// The mean, over the nodes that have one, of the mean distance from the
/// node to the other nodes that it reaches: the sum of these means as a
/// multiple of `1 / m`, over `m` times their number. It is zero where no node
/// reaches another.
pub open spec fn separation(g: Map<u32, Vec<u32>>, m: int) -> Ratio {
    if counted_nodes(g) == 0 {
        Ratio { num: 0, den: 1 }
    } else {
        Ratio { num: scaled_mean_sum(g, m) as u128, den: (m * counted_nodes(g)) as u128 }
    }
}

/// `average` is the average degrees of separation, with the least common
/// denominator `m` of the mean distances.
pub open spec fn is_separation(g: Map<u32, Vec<u32>>, average: Ratio, m: int) -> bool {
    &&& least_counts_multiple(g, m)
    &&& separation_fits(g, m)
    &&& average == separation(g, m)
    &&& average.wf()
}

/// The sum of the distances from a node and the number of other nodes that
/// it reaches, for the nodes of the graph in the order of `nodes`.
pub open spec fn is_profile(g: Map<u32, Vec<u32>>, nodes: Seq<u32>, profile: Seq<(u64, u64)>) -> bool {
    &&& profile.len() == nodes.len()
    &&& forall|i: int|
        0 <= i < nodes.len() ==> (#[trigger] profile[i]).0 == distance_sum_from(g, nodes[i])
            && profile[i].1 == others_reached_from(g, nodes[i])
}

/// Searches the graph from each of the nodes and notes the sum of the
/// distances and the number of other nodes reached.
pub fn distance_profile(graph: &HashMap<u32, Vec<u32>>, nodes: &Vec<u32>) -> (profile: Vec<
    (u64, u64),
>)
    ensures
        is_profile(graph@, nodes@, profile@),
{
    let mut profile: Vec<(u64, u64)> = Vec::new();
    let mut i: usize = 0;
    while i < nodes.len()
        invariant
            i <= nodes@.len(),
            is_profile(graph@, nodes@.take(i as int), profile@),
        decreases nodes.len() - i,
    {
        let distances = bfs(nodes[i], graph);
        let (sum, entries) = distance_totals(&distances);
        proof {
            lemma_distance_map_totals(graph@, nodes@[i as int], distances@);
        }
        let ghost before = profile@;
        profile.push((sum, entries - 1));
        proof {
            assert forall|k: int| 0 <= k < i + 1 implies (#[trigger] profile@[k]).0
                == distance_sum_from(graph@, nodes@.take(i + 1)[k]) && profile@[k].1
                == others_reached_from(graph@, nodes@.take(i + 1)[k]) by {
                if k < i {
                    assert(profile@[k] == before[k]);
                    assert(nodes@.take(i as int)[k] == nodes@[k]);
                }
            }
        }
        i += 1;
    }
    proof {
        assert(nodes@.take(i as int) == nodes@);
    }
    profile
}

/// No distance sum is negative, nor the number of nodes with a mean distance.
pub proof fn lemma_sums_not_negative(g: Map<u32, Vec<u32>>, s: u32)
    ensures
        distance_sum_from(g, s) >= 0,
        counted_nodes(g) >= 0,
        is_counted(g, s) ==> counted_nodes(g) >= 1,
{
    lemma_sum_all_bounds(hops_from(g, s), s);
    lemma_sum_all_bounds(counted(g), s);
}

/// The sum of the mean distances grows with the multiple that it is taken of.
pub proof fn lemma_mean_sum_grows(g: Map<u32, Vec<u32>>, m: int, k: int)
    requires
        counts_multiple(g, m),
        is_multiple(k, m),
        k > 0,
    ensures
        scaled_mean_sum(g, m) <= scaled_mean_sum(g, k),
{
    lemma_multiple_is_large(k, m);
    assert forall|s: u32| s < id_count() implies #[trigger] scaled_means(g, m)(s) <= scaled_means(
        g,
        k,
    )(s) by {
        if is_counted(g, s) {
            let c = others_reached_from(g, s);
            let total = distance_sum_from(g, s);
            lemma_sums_not_negative(g, s);
            lemma_multiple_transitive(k, m, c);
            let q = m / c;
            let f = k / m;
            vstd::arithmetic::div_mod::lemma_div_pos_is_pos(m, c);
            assert(total * q <= total * (f * q)) by (nonlinear_arith)
                requires
                    total >= 0,
                    q >= 0,
                    f >= 1,
            ;
        }
    }
    lemma_sum_below_le(scaled_means(g, m), scaled_means(g, k), id_count());
}

/// The nodes of the graph, each once, with the profile of their distances.
pub open spec fn profiled(
    g: Map<u32, Vec<u32>>,
    nodes: Seq<u32>,
    profile: Seq<(u64, u64)>,
) -> bool {
    &&& nodes.no_duplicates()
    &&& forall|k: u32| nodes.contains(k) <==> g.contains_key(k)
    &&& is_profile(g, nodes, profile)
}

/// The least common multiple of the numbers of other nodes reached, over the
/// nodes that reach any, and the number of these nodes; or nothing where the
/// multiple does not fit the machine type.
fn common_count(graph: &HashMap<u32, Vec<u32>>, nodes: &Vec<u32>, profile: &Vec<(u64, u64)>) -> (found:
    Option<(u128, u128)>)
    requires
        profiled(graph@, nodes@, profile@),
    ensures
        found matches Some(pair) ==> least_counts_multiple(graph@, pair.0 as int) && pair.1
            == counted_nodes(graph@),
        found is None ==> counted_nodes(graph@) >= 1 && forall|k: int| #[trigger]
            counts_multiple(graph@, k) ==> k > u128::MAX,
{
    let ghost g = graph@;
    let mut least: u128 = 1;
    let mut valid: u128 = 0;
    let mut i: usize = 0;
    proof {
        lemma_node_count_bound(g.dom());
        nodes@.unique_seq_to_set();
        assert(nodes@.to_set() =~= g.dom());
        assert forall|x: u32| !nodes@.contains(x) implies #[trigger] counted(g)(x) == 0 by {}
        lemma_sum_seq_all(counted(g), nodes@);
    }
    while i < nodes.len()
        invariant
            i <= nodes@.len() <= 0x1_0000_0000,
            g == graph@,
            profiled(g, nodes@, profile@),
            least > 0,
            valid == sum_seq(counted(g), nodes@.take(i as int)),
            valid <= i,
            forall|k: int|
                0 <= k < i && is_counted(g, #[trigger] nodes@[k]) ==> is_multiple(
                    least as int,
                    others_reached_from(g, nodes@[k]),
                ),
            forall|k: int| #[trigger] counts_multiple(g, k) ==> is_multiple(k, least as int),
        decreases nodes.len() - i,
    {
        let others = profile[i].1;
        proof {
            lemma_sum_seq_step(counted(g), nodes@, i as int);
            assert(nodes@.contains(nodes@[i as int]));
        }
        if others > 0 {
            let ghost before = least;
            assert(is_counted(g, nodes@[i as int]));
            match lcm(least, others as u128) {
                Some(both) => {
                    least = both;
                },
                None => {
                    proof {
                        lemma_sums_not_negative(g, nodes@[i as int]);
                        assert forall|k: int| #[trigger] counts_multiple(g, k) implies k
                            > u128::MAX by {
                            assert(is_multiple(k, before as int));
                            assert(is_multiple(k, others_reached_from(g, nodes@[i as int])));
                        }
                    }
                    return None;
                },
            }
            valid = valid + 1;
            proof {
                assert forall|k: int|
                    0 <= k < i + 1 && is_counted(g, #[trigger] nodes@[k]) implies is_multiple(
                    least as int,
                    others_reached_from(g, nodes@[k]),
                ) by {
                    if k < i {
                        lemma_multiple_transitive(
                            least as int,
                            before as int,
                            others_reached_from(g, nodes@[k]),
                        );
                    }
                }
                assert forall|k: int| #[trigger] counts_multiple(g, k) implies is_multiple(
                    k,
                    least as int,
                ) by {
                    assert(is_multiple(k, before as int));
                    assert(is_multiple(k, others_reached_from(g, nodes@[i as int])));
                }
            }
        }
        i += 1;
    }
    proof {
        assert(nodes@.take(i as int) == nodes@);
        assert forall|s: u32| #[trigger] is_counted(g, s) implies is_multiple(
            least as int,
            others_reached_from(g, s),
        ) by {
            assert(nodes@.contains(s));
            let k = choose|k: int| 0 <= k < nodes@.len() && nodes@[k] == s;
            assert(is_counted(g, nodes@[k]));
        }
    }
    Some((least, valid))
}

/// The sum of the mean distances as a multiple of `1 / multiple`, or nothing
/// where it does not fit the machine type.
fn mean_sum(
    graph: &HashMap<u32, Vec<u32>>,
    nodes: &Vec<u32>,
    profile: &Vec<(u64, u64)>,
    multiple: u128,
) -> (sum: Option<u128>)
    requires
        profiled(graph@, nodes@, profile@),
        counts_multiple(graph@, multiple as int),
    ensures
        sum matches Some(total) ==> total == scaled_mean_sum(graph@, multiple as int),
        sum is None ==> scaled_mean_sum(graph@, multiple as int) > u128::MAX,
{
    let ghost g = graph@;
    let ghost m = multiple as int;
    let ghost term = scaled_means(g, m);
    let mut total: u128 = 0;
    let mut i: usize = 0;
    proof {
        assert forall|x: u32| !nodes@.contains(x) implies #[trigger] term(x) == 0 by {}
        lemma_sum_seq_all(term, nodes@);
        assert forall|k: int| 0 <= k < nodes@.len() implies term(#[trigger] nodes@[k]) >= 0 by {
            let s = nodes@[k];
            if is_counted(g, s) {
                lemma_sums_not_negative(g, s);
                let c = others_reached_from(g, s);
                let a = distance_sum_from(g, s);
                vstd::arithmetic::div_mod::lemma_div_pos_is_pos(m, c);
                let q = m / c;
                assert(a * q >= 0) by (nonlinear_arith)
                    requires
                        a >= 0,
                        q >= 0,
                ;
            }
        }
    }
    while i < nodes.len()
        invariant
            i <= nodes@.len(),
            g == graph@,
            m == multiple as int,
            term == scaled_means(g, m),
            profiled(g, nodes@, profile@),
            total == sum_seq(term, nodes@.take(i as int)),
            sum_seq(term, nodes@) == scaled_mean_sum(g, m),
            forall|k: int| 0 <= k < nodes@.len() ==> term(#[trigger] nodes@[k]) >= 0,
        decreases nodes.len() - i,
    {
        let (distance, others) = profile[i];
        proof {
            lemma_sum_seq_step(term, nodes@, i as int);
            lemma_sum_seq_prefix(term, nodes@, i + 1);
            lemma_sum_seq_prefix(term, nodes@, i as int);
            assert(nodes@.contains(nodes@[i as int]));
        }
        if others > 0 {
            assert(is_counted(g, nodes@[i as int]));
            let each = multiple / (others as u128);
            let part = match (distance as u128).checked_mul(each) {
                Some(part) => part,
                None => {
                    return None;
                },
            };
            match total.checked_add(part) {
                Some(more) => {
                    total = more;
                },
                None => {
                    return None;
                },
            }
        }
        i += 1;
    }
    proof {
        assert(nodes@.take(i as int) == nodes@);
    }
    Some(total)
}

/// The average degrees of separation: the mean, over the nodes that reach
/// any other node, of the mean distance from the node to the nodes that it
/// reaches.
///
/// It is zero for a graph in which no node reaches another. The result is an
/// exact quotient over the least common denominator of the mean distances;
/// there is none where no such quotient fits the machine type.
pub fn avg_degrees_of_separation(graph: &HashMap<u32, Vec<u32>>) -> (average: Option<Ratio>)
    ensures
        match average {
            Some(mean) => exists|m: int| is_separation(graph@, mean, m),
            None => forall|m: int| !separation_fits(graph@, m),
        },
{
    let ghost g = graph@;
    let nodes = key_list(graph);
    let profile = distance_profile(graph, &nodes);
    let (least, valid) = match common_count(graph, &nodes, &profile) {
        Some(pair) => pair,
        None => {
            proof {
                assert forall|k: int| !separation_fits(g, k) by {
                    if counts_multiple(g, k) {
                        let c = counted_nodes(g);
                        assert(k * c >= k) by (nonlinear_arith)
                            requires
                                k > 0,
                                c >= 1,
                        ;
                    }
                }
            }
            return None;
        },
    };
    let ghost m = least as int;
    let total = match mean_sum(graph, &nodes, &profile, least) {
        Some(total) => total,
        None => {
            proof {
                assert forall|k: int| !separation_fits(g, k) by {
                    if counts_multiple(g, k) {
                        assert(is_multiple(k, m));
                        lemma_mean_sum_grows(g, m, k);
                    }
                }
            }
            return None;
        },
    };
    let mean = if valid == 0 {
        assert(m * 0 == 0);
        Ratio { num: 0, den: 1 }
    } else {
        match least.checked_mul(valid) {
            Some(den) => {
                assert(den > 0) by (nonlinear_arith)
                    requires
                        den == least * valid,
                        least > 0,
                        valid > 0,
                ;
                Ratio { num: total, den }
            },
            None => {
                proof {
                    assert forall|k: int| !separation_fits(g, k) by {
                        if counts_multiple(g, k) {
                            assert(is_multiple(k, m));
                            lemma_multiple_is_large(k, m);
                            let c = counted_nodes(g);
                            assert(k * c >= m * c) by (nonlinear_arith)
                                requires
                                    k >= m,
                                    c >= 0,
                            ;
                        }
                    }
                }
                return None;
            },
        }
    };
    let average = Some(mean);
    proof {
        assert(is_separation(graph@, average->0, m));
    }
    average
}

} // verus!
