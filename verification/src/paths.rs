//! Walks, hop distance, and breadth-first search.

use crate::graph::adjacent;
use std::collections::HashMap;
use std::collections::VecDeque;
use vstd::prelude::*;
use vstd::set_lib::*;

verus! {

/// A non-empty sequence of nodes, each adjacent to the one after it.
pub open spec fn is_walk(g: Map<u32, Vec<u32>>, w: Seq<u32>) -> bool {
    &&& w.len() > 0
    &&& forall|i: int| 0 <= i < w.len() - 1 ==> adjacent(g, #[trigger] w[i], w[i + 1])
}

/// `w` is a walk of `k` hops from `s` to `t`.
pub open spec fn walk_of(g: Map<u32, Vec<u32>>, s: u32, t: u32, w: Seq<u32>, k: nat) -> bool {
    &&& is_walk(g, w)
    &&& w.len() == k + 1
    &&& w[0] == s
    &&& w[k as int] == t
}

/// Some walk of exactly `k` hops leads from `s` to `t`.
pub open spec fn reachable_in(g: Map<u32, Vec<u32>>, s: u32, t: u32, k: nat) -> bool {
    exists|w: Seq<u32>| walk_of(g, s, t, w, k)
}

/// Some walk leads from `s` to `t`.
pub open spec fn reachable(g: Map<u32, Vec<u32>>, s: u32, t: u32) -> bool {
    exists|k: nat| reachable_in(g, s, t, k)
}

/// `k` is the least number of hops in which `t` is reached from `s`.
pub open spec fn is_dist(g: Map<u32, Vec<u32>>, s: u32, t: u32, k: nat) -> bool {
    &&& reachable_in(g, s, t, k)
    &&& forall|j: nat| j < k ==> !reachable_in(g, s, t, j)
}

/// The hop distance from `s` to `t`: the length of a shortest walk. It is
/// meaningful only where `t` is reachable from `s`.
pub open spec fn dist(g: Map<u32, Vec<u32>>, s: u32, t: u32) -> nat {
    choose|k: nat| is_dist(g, s, t, k)
}

/// Every node is at distance zero of itself, and of no other node.
pub proof fn lemma_zero_hops(g: Map<u32, Vec<u32>>, s: u32, t: u32)
    ensures
        reachable_in(g, s, t, 0) <==> s == t,
{
    assert(walk_of(g, s, s, seq![s], 0));
    if reachable_in(g, s, t, 0) {
        let w = choose|w: Seq<u32>| walk_of(g, s, t, w, 0);
    }
}

/// A walk to `u` followed by a hop from `u` to `v` is a walk to `v`.
pub proof fn lemma_one_more_hop(g: Map<u32, Vec<u32>>, s: u32, u: u32, v: u32, k: nat)
    requires
        reachable_in(g, s, u, k),
        adjacent(g, u, v),
    ensures
        reachable_in(g, s, v, k + 1),
{
    let w = choose|w: Seq<u32>| walk_of(g, s, u, w, k);
    let x = w.push(v);
    assert forall|i: int| 0 <= i < x.len() - 1 implies adjacent(g, #[trigger] x[i], x[i + 1]) by {
        if i < k {
            assert(x[i] == w[i] && x[i + 1] == w[i + 1]);
        }
    }
    assert(walk_of(g, s, v, x, k + 1));
}

/// A walk of at least one hop reaches its end through a neighbour that is one
/// hop nearer to the start.
pub proof fn lemma_last_hop(g: Map<u32, Vec<u32>>, s: u32, v: u32, k: nat) -> (u: u32)
    requires
        reachable_in(g, s, v, k + 1),
    ensures
        reachable_in(g, s, u, k),
        adjacent(g, u, v),
{
    let n: nat = k + 1;
    let w = choose|w: Seq<u32>| walk_of(g, s, v, w, n);
    let x = w.drop_last();
    let u = w[k as int];
    assert forall|i: int| 0 <= i < x.len() - 1 implies adjacent(g, #[trigger] x[i], x[i + 1]) by {
        assert(x[i] == w[i] && x[i + 1] == w[i + 1]);
    }
    assert(walk_of(g, s, u, x, k));
    assert(adjacent(g, w[k as int], w[k as int + 1]));
    u
}

/// Among the hop counts that reach `t`, one not above `k` is the least.
proof fn lemma_least_hops(g: Map<u32, Vec<u32>>, s: u32, t: u32, k: nat) -> (m: nat)
    requires
        reachable_in(g, s, t, k),
    ensures
        m <= k,
        is_dist(g, s, t, m),
    decreases k,
{
    if exists|j: nat| j < k && reachable_in(g, s, t, j) {
        let j = choose|j: nat| j < k && reachable_in(g, s, t, j);
        lemma_least_hops(g, s, t, j)
    } else {
        k
    }
}

/// A reachable node has a distance, and only one.
pub proof fn lemma_dist(g: Map<u32, Vec<u32>>, s: u32, t: u32)
    requires
        reachable(g, s, t),
    ensures
        is_dist(g, s, t, dist(g, s, t)),
        forall|k: nat| is_dist(g, s, t, k) ==> k == dist(g, s, t),
{
    let k = choose|k: nat| reachable_in(g, s, t, k);
    let m = lemma_least_hops(g, s, t, k);
}

/// A set of nodes that holds `s` and every neighbour of each of its members
/// holds all that is reachable from `s`.
pub proof fn lemma_closed_holds_reachable(
    g: Map<u32, Vec<u32>>,
    s: u32,
    t: u32,
    k: nat,
    nodes: Set<u32>,
)
    requires
        nodes.contains(s),
        forall|v: u32, w: u32| nodes.contains(v) && #[trigger] adjacent(g, v, w) ==> nodes.contains(w),
        reachable_in(g, s, t, k),
    ensures
        nodes.contains(t),
    decreases k,
{
    if k == 0 {
        lemma_zero_hops(g, s, t);
    } else {
        let u = lemma_last_hop(g, s, t, (k - 1) as nat);
        lemma_closed_holds_reachable(g, s, u, (k - 1) as nat, nodes);
    }
}

/// There are no more than 2^32 distinct node identifiers.
pub proof fn lemma_node_count_bound(nodes: Set<u32>)
    requires
        nodes.finite(),
    ensures
        nodes.len() <= 0x1_0000_0000,
{
    let f = |x: u32| x as int;
    let image = nodes.map(f);
    assert(vstd::relations::injective_on(f, nodes));
    lemma_map_size(nodes, image, f);
    lemma_int_range(0, 0x1_0000_0000);
    assert(image.subset_of(set_int_range(0, 0x1_0000_0000)));
    lemma_len_subset(image, set_int_range(0, 0x1_0000_0000));
}

/// What a distance map holds while the search runs: the source at zero, and
/// with every node its true distance, which is below the number of nodes
/// that the map holds.
pub open spec fn distances_sound(g: Map<u32, Vec<u32>>, s: u32, d: Map<u32, u32>) -> bool {
    &&& d.dom().finite()
    &&& d.contains_key(s)
    &&& forall|v: u32| #[trigger] d.contains_key(v) ==> is_dist(g, s, v, d[v] as nat)
    &&& forall|v: u32| #[trigger] d.contains_key(v) ==> d[v] < d.dom().len()
}

/// The distance map of `s`: it holds exactly the nodes reachable from `s`,
/// each with its hop distance.
pub open spec fn is_distance_map(g: Map<u32, Vec<u32>>, s: u32, d: Map<u32, u32>) -> bool {
    &&& d.dom().finite()
    &&& forall|t: u32| #[trigger] d.contains_key(t) <==> reachable(g, s, t)
    &&& forall|t: u32| #[trigger] d.contains_key(t) ==> d[t] == dist(g, s, t)
}

/// The shape of the queue of nodes whose neighbours are still to be looked
/// at: each is in the distance map, the first `split` of them at distance
/// `level`, the others one hop further.
pub open spec fn queue_in_order(d: Map<u32, u32>, q: Seq<u32>, level: nat, split: int) -> bool {
    &&& 0 <= split <= q.len()
    &&& forall|i: int| 0 <= i < q.len() ==> d.contains_key(#[trigger] q[i])
    &&& forall|i: int| 0 <= i < split ==> d[#[trigger] q[i]] == level
    &&& forall|i: int| split <= i < q.len() ==> d[#[trigger] q[i]] == level + 1
}

/// Every node of the distance map but those in the queue, and but `open`, has
/// all its neighbours in the map.
pub open spec fn neighbours_seen(
    g: Map<u32, Vec<u32>>,
    d: Map<u32, u32>,
    q: Seq<u32>,
    open: Option<u32>,
) -> bool {
    forall|v: u32, w: u32|
        d.contains_key(v) && #[trigger] adjacent(g, v, w) ==> q.contains(v) || open == Some(v)
            || d.contains_key(w)
}

/// The distance map holds every node within `level` hops of `s`.
pub open spec fn holds_all_within(g: Map<u32, Vec<u32>>, s: u32, d: Map<u32, u32>, level: nat) -> bool {
    forall|v: u32, k: nat| k <= level && #[trigger] reachable_in(g, s, v, k) ==> d.contains_key(v)
}

/// Once no node of the queue is at distance `level` any more, the distance
/// map holds every node within `level + 1` hops.
proof fn lemma_level_done(g: Map<u32, Vec<u32>>, s: u32, d: Map<u32, u32>, q: Seq<u32>, level: nat)
    requires
        distances_sound(g, s, d),
        queue_in_order(d, q, level, 0),
        neighbours_seen(g, d, q, None),
        holds_all_within(g, s, d, level),
    ensures
        holds_all_within(g, s, d, level + 1),
{
    assert forall|v: u32, k: nat| k <= level + 1 && #[trigger] reachable_in(g, s, v, k) implies d.contains_key(
        v,
    ) by {
        if k > level {
            let u = lemma_last_hop(g, s, v, level);
            assert(d.contains_key(u));
            assert(is_dist(g, s, u, d[u] as nat));
            if q.contains(u) {
                let i = choose|i: int| 0 <= i < q.len() && q[i] == u;
                assert(d[q[i]] == level + 1);
            }
        }
    }
}

/// Taking the first node off the queue leaves the rest in order and makes
/// that node the one whose neighbours are open.
proof fn lemma_take_front(
    g: Map<u32, Vec<u32>>,
    d: Map<u32, u32>,
    q: Seq<u32>,
    level: nat,
    split: int,
)
    requires
        queue_in_order(d, q, level, split),
        neighbours_seen(g, d, q, None),
        split > 0,
    ensures
        queue_in_order(d, q.skip(1), level, split - 1),
        neighbours_seen(g, d, q.skip(1), Some(q[0])),
{
    let rest = q.skip(1);
    assert forall|v: u32, w: u32| d.contains_key(v) && #[trigger] adjacent(g, v, w) implies rest.contains(
        v,
    ) || Some(q[0]) == Some(v) || d.contains_key(w) by {
        if q.contains(v) && v != q[0] {
            let i = choose|i: int| 0 <= i < q.len() && q[i] == v;
            assert(rest[i - 1] == v);
        }
    }
}

/// Entering a newly found neighbour of the open node keeps the map sound and
/// the queue in order.
proof fn lemma_enter(
    g: Map<u32, Vec<u32>>,
    s: u32,
    d: Map<u32, u32>,
    q: Seq<u32>,
    level: u32,
    split: int,
    curr: u32,
    neigh: u32,
)
    requires
        distances_sound(g, s, d),
        queue_in_order(d, q, level as nat, split),
        neighbours_seen(g, d, q, Some(curr)),
        holds_all_within(g, s, d, level as nat),
        d.contains_key(curr),
        d[curr] == level,
        adjacent(g, curr, neigh),
        !d.contains_key(neigh),
    ensures
        level < u32::MAX,
        distances_sound(g, s, d.insert(neigh, (level + 1) as u32)),
        queue_in_order(d.insert(neigh, (level + 1) as u32), q.push(neigh), level as nat, split),
        neighbours_seen(g, d.insert(neigh, (level + 1) as u32), q.push(neigh), Some(curr)),
        holds_all_within(g, s, d.insert(neigh, (level + 1) as u32), level as nat),
        d.insert(neigh, (level + 1) as u32).dom().len() == d.dom().len() + 1,
{
    let e = d.insert(neigh, (level + 1) as u32);
    let r = q.push(neigh);
    lemma_node_count_bound(d.dom().insert(neigh));
    lemma_one_more_hop(g, s, curr, neigh, level as nat);
    assert(e.dom() =~= d.dom().insert(neigh));
    assert forall|v: u32| #[trigger] e.contains_key(v) implies is_dist(g, s, v, e[v] as nat) by {
        if v != neigh {
            assert(d.contains_key(v));
        }
    }
    assert forall|v: u32| #[trigger] e.contains_key(v) implies e[v] < e.dom().len() by {
        if v != neigh {
            assert(d.contains_key(v));
        }
    }
    assert forall|i: int| 0 <= i < r.len() implies e.contains_key(#[trigger] r[i]) by {
        if i < q.len() {
            assert(r[i] == q[i]);
        }
    }
    assert forall|i: int| 0 <= i < split implies e[#[trigger] r[i]] == level as nat by {
        assert(r[i] == q[i]);
    }
    assert forall|i: int| split <= i < r.len() implies e[#[trigger] r[i]] == level as nat + 1 by {
        if i < q.len() {
            assert(r[i] == q[i]);
        }
    }
    assert forall|v: u32, w: u32| e.contains_key(v) && #[trigger] adjacent(g, v, w) implies r.contains(
        v,
    ) || Some(curr) == Some(v) || e.contains_key(w) by {
        if v == neigh {
            assert(r[q.len() as int] == neigh);
        } else if q.contains(v) {
            let i = choose|i: int| 0 <= i < q.len() && q[i] == v;
            assert(r[i] == v);
        }
    }
}

/// The nodes of a distance map in an order of search: each once, the source
/// first, and none before a node that is nearer to the source.
pub open spec fn is_search_order(d: Map<u32, u32>, s: u32, order: Seq<u32>) -> bool {
    &&& order.no_duplicates()
    &&& order.len() > 0
    &&& order[0] == s
    &&& forall|v: u32| order.contains(v) <==> d.contains_key(v)
    &&& forall|i: int, j: int|
        0 <= i <= j < order.len() ==> d[#[trigger] order[i]] <= d[#[trigger] order[j]]
}

/// The order of search so far, and no node further than one hop beyond `level`.
pub open spec fn order_so_far(d: Map<u32, u32>, s: u32, order: Seq<u32>, level: nat) -> bool {
    &&& is_search_order(d, s, order)
    &&& forall|v: u32| #[trigger] d.contains_key(v) ==> d[v] <= level + 1
}

/// Entering a newly found node one hop beyond `level` at the end of the order
/// keeps it an order of search.
proof fn lemma_enter_order(
    d: Map<u32, u32>,
    s: u32,
    order: Seq<u32>,
    level: u32,
    neigh: u32,
)
    requires
        order_so_far(d, s, order, level as nat),
        !d.contains_key(neigh),
        level < u32::MAX,
    ensures
        order_so_far(d.insert(neigh, (level + 1) as u32), s, order.push(neigh), level as nat),
{
    let e = d.insert(neigh, (level + 1) as u32);
    let r = order.push(neigh);
    assert forall|v: u32| r.contains(v) <==> e.contains_key(v) by {
        if r.contains(v) {
            let i = choose|i: int| 0 <= i < r.len() && r[i] == v;
            if i < order.len() {
                assert(order[i] == v);
                assert(order.contains(v));
            }
        }
        if e.contains_key(v) {
            if v == neigh {
                assert(r[order.len() as int] == v);
            } else {
                assert(order.contains(v));
                let i = choose|i: int| 0 <= i < order.len() && order[i] == v;
                assert(r[i] == v);
            }
        }
    }
    assert forall|i: int, j: int| 0 <= i < j < r.len() implies r[i] != r[j] by {
        if j == order.len() {
            assert(order[i] == r[i]);
            assert(order.contains(r[i]));
        } else {
            assert(order[i] == r[i] && order[j] == r[j]);
        }
    }
    assert forall|i: int, j: int| 0 <= i <= j < r.len() implies e[#[trigger] r[i]] <= e[#[trigger] r[j]] by {
        if i < order.len() {
            assert(order[i] == r[i]);
            assert(order.contains(r[i]));
            assert(d.contains_key(r[i]));
        }
        if j < order.len() {
            assert(order[j] == r[j]);
            assert(order.contains(r[j]));
        }
    }
    assert(r[0] == order[0]);
}

/// Breadth-first search from `node`.
///
/// The result maps every node that some walk reaches from `node` to the
/// number of hops of a shortest such walk, `node` itself to zero. A node
/// that no walk reaches is absent. `node` need not be a node of the graph.
pub fn bfs(node: u32, adj_list: &HashMap<u32, Vec<u32>>) -> (distances: HashMap<u32, u32>)
    ensures
        is_distance_map(adj_list@, node, distances@),
{
    bfs_order(node, adj_list).0
}

/// Breadth-first search from `node` that also tells the order in which the
/// nodes were found.
///
/// The first part of the result is the distance map of `node`. The second
/// lists the nodes of that map, each once, `node` first and every node after
/// all those that are nearer to `node`.
pub fn bfs_order(node: u32, adj_list: &HashMap<u32, Vec<u32>>) -> (found: (
    HashMap<u32, u32>,
    Vec<u32>,
))
    ensures
        is_distance_map(adj_list@, node, found.0@),
        is_search_order(found.0@, node, found.1@),
{
    broadcast use vstd::std_specs::hash::group_hash_axioms;

    let ghost g = adj_list@;
    let mut distances: HashMap<u32, u32> = HashMap::new();
    let mut queue: VecDeque<u32> = VecDeque::new();
    let mut order: Vec<u32> = Vec::new();
    let no_neighbours: Vec<u32> = Vec::new();

    distances.insert(node, 0);
    queue.push_back(node);
    order.push(node);
    let ghost mut level: nat = 0;
    let ghost mut split: int = 1;
    proof {
        lemma_zero_hops(g, node, node);
        assert(distances@.dom() =~= Set::empty().insert(node));
        assert(queue@[0] == node);
        assert(order@[0] == node);
        assert forall|v: u32| order@.contains(v) <==> distances@.contains_key(v) by {
            if order@.contains(v) {
                let i = choose|i: int| 0 <= i < order@.len() && order@[i] == v;
            }
        }
        assert forall|v: u32, k: nat| k <= 0 && #[trigger] reachable_in(g, node, v, k) implies v
            == node by {
            lemma_zero_hops(g, node, v);
        }
    }
    while queue.len() > 0
        invariant
            g == adj_list@,
            no_neighbours@.len() == 0,
            distances_sound(g, node, distances@),
            queue_in_order(distances@, queue@, level, split),
            neighbours_seen(g, distances@, queue@, None),
            holds_all_within(g, node, distances@, level),
            order_so_far(distances@, node, order@, level),
            queue@.len() > 0 ==> split > 0,
        decreases 2 * (0x1_0000_0000 - distances@.dom().len()) + queue@.len(),
    {
        proof {
            lemma_node_count_bound(distances@.dom());
            lemma_take_front(g, distances@, queue@, level, split);
        }
        let ghost before = queue@;
        let ghost size_before = distances@.dom().len();
        let curr = queue.pop_front().unwrap();
        let here = *distances.get(&curr).unwrap();
        let list = match adj_list.get(&curr) {
            Some(found) => found,
            None => &no_neighbours,
        };
        proof {
            split = split - 1;
            assert(queue@ =~= before.skip(1));
            assert(here == level);
        }
        let mut j: usize = 0;
        while j < list.len()
            invariant
                j <= list.len(),
                g == adj_list@,
                here == level,
                distances_sound(g, node, distances@),
                distances@.contains_key(curr),
                distances@[curr] == here,
                queue_in_order(distances@, queue@, level, split),
                neighbours_seen(g, distances@, queue@, Some(curr)),
                holds_all_within(g, node, distances@, level),
                order_so_far(distances@, node, order@, level),
                forall|i: int| 0 <= i < j ==> distances@.contains_key(#[trigger] list@[i]),
                forall|w: u32| adjacent(g, curr, w) ==> list@.contains(w),
                forall|i: int| 0 <= i < list@.len() ==> adjacent(g, curr, #[trigger] list@[i]),
                distances@.dom().len() - queue@.len() == size_before - (before.len() - 1),
                distances@.dom().len() >= size_before,
            decreases list.len() - j,
        {
            let neigh = list[j];
            if !distances.contains_key(&neigh) {
                proof {
                    lemma_enter(g, node, distances@, queue@, here, split, curr, neigh);
                    lemma_enter_order(distances@, node, order@, here, neigh);
                }
                distances.insert(neigh, here + 1);
                queue.push_back(neigh);
                order.push(neigh);
            }
            j += 1;
        }
        proof {
            assert forall|v: u32, w: u32|
                distances@.contains_key(v) && #[trigger] adjacent(g, v, w) implies queue@.contains(
                v,
            ) || None::<u32> == Some(v) || distances@.contains_key(w) by {
                if v == curr {
                    let i = choose|i: int| 0 <= i < list@.len() && list@[i] == w;
                }
            }
            lemma_node_count_bound(distances@.dom());
            if split == 0 {
                lemma_level_done(g, node, distances@, queue@, level);
                level = level + 1;
                split = queue@.len() as int;
            }
        }
    }
    proof {
        assert forall|t: u32| #[trigger] distances@.contains_key(t) <==> reachable(g, node, t) by {
            if reachable(g, node, t) {
                let k = choose|k: nat| reachable_in(g, node, t, k);
                lemma_closed_holds_reachable(g, node, t, k, distances@.dom());
            }
            if distances@.contains_key(t) {
                assert(is_dist(g, node, t, distances@[t] as nat));
            }
        }
        assert forall|t: u32| #[trigger] distances@.contains_key(t) implies distances@[t] == dist(
            g,
            node,
            t,
        ) by {
            assert(is_dist(g, node, t, distances@[t] as nat));
            lemma_dist(g, node, t);
        }
    }
    (distances, order)
}

/// Where adjacency is symmetric, a walk read backwards is a walk: what is
/// reached in `k` hops one way is reached in `k` hops the other way.
pub proof fn lemma_walk_back(g: Map<u32, Vec<u32>>, s: u32, t: u32, k: nat)
    requires
        forall|u: u32, v: u32| #[trigger] adjacent(g, u, v) ==> adjacent(g, v, u),
        reachable_in(g, s, t, k),
    ensures
        reachable_in(g, t, s, k),
{
    let w = choose|w: Seq<u32>| walk_of(g, s, t, w, k);
    let r = Seq::new(w.len(), |i: int| w[k - i]);
    assert forall|i: int| 0 <= i < r.len() - 1 implies adjacent(g, #[trigger] r[i], r[i + 1]) by {
        assert(adjacent(g, w[k - i - 1], w[k - i - 1 + 1]));
    }
    assert(walk_of(g, t, s, r, k));
}

/// In an undirected graph the distance is symmetric: `t` is reachable from
/// `s` exactly when `s` is reachable from `t`, and then the distance from `s`
/// to `t` is the distance from `t` to `s`.
pub proof fn lemma_dist_symmetric(g: Map<u32, Vec<u32>>, s: u32, t: u32)
    requires
        forall|u: u32, v: u32| #[trigger] adjacent(g, u, v) ==> adjacent(g, v, u),
    ensures
        reachable(g, s, t) <==> reachable(g, t, s),
        reachable(g, s, t) ==> dist(g, s, t) == dist(g, t, s),
{
    if reachable(g, s, t) {
        let k = choose|k: nat| reachable_in(g, s, t, k);
        lemma_walk_back(g, s, t, k);
    }
    if reachable(g, t, s) {
        let k = choose|k: nat| reachable_in(g, t, s, k);
        lemma_walk_back(g, t, s, k);
    }
    if reachable(g, s, t) {
        lemma_dist(g, s, t);
        lemma_dist(g, t, s);
        let a = dist(g, s, t);
        let b = dist(g, t, s);
        lemma_walk_back(g, s, t, a);
        lemma_walk_back(g, t, s, b);
    }
}

/// The distance maps of two nodes of an undirected graph agree on one
/// another: each holds the other node or neither does, and with the same
/// distance.
pub proof fn lemma_distance_maps_symmetric(
    g: Map<u32, Vec<u32>>,
    s: u32,
    t: u32,
    from_s: Map<u32, u32>,
    from_t: Map<u32, u32>,
)
    requires
        forall|u: u32, v: u32| #[trigger] adjacent(g, u, v) ==> adjacent(g, v, u),
        is_distance_map(g, s, from_s),
        is_distance_map(g, t, from_t),
    ensures
        from_s.contains_key(t) <==> from_t.contains_key(s),
        from_s.contains_key(t) ==> from_s[t] == from_t[s],
{
    lemma_dist_symmetric(g, s, t);
}

/// A hop from `s` to `u` followed by a walk from `u` to `t` is a walk from
/// `s` to `t`.
pub proof fn lemma_one_hop_before(g: Map<u32, Vec<u32>>, s: u32, u: u32, t: u32, k: nat)
    requires
        adjacent(g, s, u),
        reachable_in(g, u, t, k),
    ensures
        reachable_in(g, s, t, k + 1),
{
    let w = choose|w: Seq<u32>| walk_of(g, u, t, w, k);
    let x = seq![s] + w;
    assert forall|i: int| 0 <= i < x.len() - 1 implies adjacent(g, #[trigger] x[i], x[i + 1]) by {
        if i > 0 {
            assert(x[i] == w[i - 1] && x[i + 1] == w[i - 1 + 1]);
        } else {
            assert(x[0] == s && x[1] == w[0]);
        }
    }
    assert(x[k as int + 1] == w[k as int]);
    assert(walk_of(g, s, t, x, k + 1));
}

/// A walk of at least one hop leaves its start through a neighbour from
/// which the end is one hop nearer.
pub proof fn lemma_first_hop(g: Map<u32, Vec<u32>>, s: u32, t: u32, k: nat) -> (u: u32)
    requires
        reachable_in(g, s, t, k + 1),
    ensures
        adjacent(g, s, u),
        reachable_in(g, u, t, k),
{
    let n: nat = k + 1;
    let w = choose|w: Seq<u32>| walk_of(g, s, t, w, n);
    let x = w.skip(1);
    let u = w[1];
    assert forall|i: int| 0 <= i < x.len() - 1 implies adjacent(g, #[trigger] x[i], x[i + 1]) by {
        assert(x[i] == w[i + 1] && x[i + 1] == w[i + 1 + 1]);
        assert(adjacent(g, w[i + 1], w[i + 1 + 1]));
    }
    assert(walk_of(g, u, t, x, k));
    assert(adjacent(g, w[0int], w[0int + 1]));
    u
}

/// A walk from `s` to `v` followed by a walk from `v` to `t` is a walk from
/// `s` to `t`.
pub proof fn lemma_walk_joined(g: Map<u32, Vec<u32>>, s: u32, v: u32, t: u32, a: nat, b: nat)
    requires
        reachable_in(g, s, v, a),
        reachable_in(g, v, t, b),
    ensures
        reachable_in(g, s, t, a + b),
    decreases b,
{
    if b == 0 {
        lemma_zero_hops(g, v, t);
    } else {
        let u = lemma_last_hop(g, v, t, (b - 1) as nat);
        lemma_walk_joined(g, s, v, u, a, (b - 1) as nat);
        lemma_one_more_hop(g, s, u, t, (a + b - 1) as nat);
    }
}

/// The triangle inequality: the way from `s` to `t` is no longer than the
/// way through `v`.
pub proof fn lemma_triangle(g: Map<u32, Vec<u32>>, s: u32, v: u32, t: u32)
    requires
        reachable(g, s, v),
        reachable(g, v, t),
    ensures
        reachable(g, s, t),
        dist(g, s, t) <= dist(g, s, v) + dist(g, v, t),
{
    lemma_dist(g, s, v);
    lemma_dist(g, v, t);
    lemma_walk_joined(g, s, v, t, dist(g, s, v), dist(g, v, t));
    assert(reachable(g, s, t));
    lemma_dist(g, s, t);
}

/// The distance from a node to itself is zero, and to no other node.
pub proof fn lemma_dist_zero(g: Map<u32, Vec<u32>>, s: u32, t: u32)
    ensures
        reachable(g, s, s),
        dist(g, s, s) == 0,
        reachable(g, s, t) && dist(g, s, t) == 0 ==> s == t,
{
    lemma_zero_hops(g, s, s);
    assert(reachable(g, s, s));
    lemma_dist(g, s, s);
    if reachable(g, s, t) {
        lemma_dist(g, s, t);
        lemma_zero_hops(g, s, t);
    }
}

} // verus!
