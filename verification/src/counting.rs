//! The counts of walks are the sizes of the sets of walks.

use crate::betweenness::{sigma, walks, walks_by_last_hop};
use crate::graph::adjacent;
use crate::paths::{dist, reachable, walk_of};
use crate::sums::{id_count, sum_below};
use vstd::prelude::*;
use vstd::set_lib::*;

verus! {

/// The walks of `k` hops from `s` to `t`.
pub open spec fn walk_set(g: Map<u32, Vec<u32>>, s: u32, t: u32, k: nat) -> Set<Seq<u32>> {
    Set::new(|w: Seq<u32>| walk_of(g, s, t, w, k))
}

/// The walks of `k` hops from `s` to `t` whose last hop is from `u`.
pub open spec fn walks_from(g: Map<u32, Vec<u32>>, s: u32, t: u32, k: nat, u: u32) -> Set<
    Seq<u32>,
> {
    Set::new(|w: Seq<u32>| k > 0 && walk_of(g, s, t, w, k) && w[k - 1] == u)
}

/// The walks of `k` hops from `s` to `t` whose last hop is from a node with
/// an identifier below `n`.
pub open spec fn walks_from_below(g: Map<u32, Vec<u32>>, s: u32, t: u32, k: nat, n: nat) -> Set<
    Seq<u32>,
> {
    Set::new(|w: Seq<u32>| k > 0 && walk_of(g, s, t, w, k) && w[k - 1] < n)
}

/// There are as many walks to `t` with the last hop from `u` as there are
/// walks to `u` of one hop less, where `u` is joined to `t`, and none where
/// it is not.
proof fn lemma_walks_from(g: Map<u32, Vec<u32>>, s: u32, t: u32, k: nat, u: u32)
    requires
        k > 0,
        walk_set(g, s, u, (k - 1) as nat).finite(),
    ensures
        walks_from(g, s, t, k, u).finite(),
        walks_from(g, s, t, k, u).len() == if adjacent(g, u, t) {
            walk_set(g, s, u, (k - 1) as nat).len()
        } else {
            0
        },
{
    let p = (k - 1) as nat;
    let longer = walks_from(g, s, t, k, u);
    if adjacent(g, u, t) {
        let shorter = walk_set(g, s, u, p);
        let extend = |w: Seq<u32>| w.push(t);
        assert forall|a: Seq<u32>, b: Seq<u32>|
            shorter.contains(a) && shorter.contains(b) && #[trigger] extend(a) == #[trigger] extend(
                b,
            ) implies a == b by {
            assert(a.push(t).drop_last() =~= a);
            assert(b.push(t).drop_last() =~= b);
        }
        assert(vstd::relations::injective_on(extend, shorter));
        assert forall|x: Seq<u32>| shorter.map(extend).contains(x) <==> longer.contains(x) by {
            if shorter.map(extend).contains(x) {
                let w = choose|w: Seq<u32>| shorter.contains(w) && extend(w) == x;
                assert forall|i: int| 0 <= i < x.len() - 1 implies adjacent(
                    g,
                    #[trigger] x[i],
                    x[i + 1],
                ) by {
                    if i < p {
                        assert(x[i] == w[i] && x[i + 1] == w[i + 1]);
                    }
                }
                assert(walk_of(g, s, t, x, k));
            }
            if longer.contains(x) {
                let w = x.drop_last();
                assert forall|i: int| 0 <= i < w.len() - 1 implies adjacent(
                    g,
                    #[trigger] w[i],
                    w[i + 1],
                ) by {
                    assert(x[i] == w[i] && x[i + 1] == w[i + 1]);
                }
                assert(walk_of(g, s, u, w, p));
                assert(shorter.contains(w));
                assert(extend(w) =~= x);
            }
        }
        assert(shorter.map(extend) =~= longer);
        lemma_map_size(shorter, longer, extend);
    } else {
        assert forall|x: Seq<u32>| !longer.contains(x) by {
            if longer.contains(x) {
                assert(adjacent(g, x[k - 1], x[k - 1 + 1]));
            }
        }
        assert(longer =~= Set::empty());
    }
}

/// The walks whose last hop is from a node below `n` are as many as the
/// counts by last hop sum to below `n`.
proof fn lemma_walks_from_below(g: Map<u32, Vec<u32>>, s: u32, t: u32, k: nat, n: nat)
    requires
        k > 0,
        n <= id_count(),
        forall|u: u32| #[trigger]
            walk_set(g, s, u, (k - 1) as nat).finite() && walk_set(g, s, u, (k - 1) as nat).len()
                == walks(g, s, u, (k - 1) as nat),
    ensures
        walks_from_below(g, s, t, k, n).finite(),
        walks_from_below(g, s, t, k, n).len() == sum_below(walks_by_last_hop(g, s, t, k), n),
    decreases n,
{
    let all = walks_from_below(g, s, t, k, n);
    if n == 0 {
        assert(all =~= Set::empty());
    } else {
        let p = (n - 1) as nat;
        let u = p as u32;
        let fewer = walks_from_below(g, s, t, k, p);
        let last = walks_from(g, s, t, k, u);
        lemma_walks_from_below(g, s, t, k, p);
        assert(walk_set(g, s, u, (k - 1) as nat).finite());
        lemma_walks_from(g, s, t, k, u);
        assert(fewer + last =~= all);
        assert(fewer.disjoint(last));
        lemma_set_disjoint_lens(fewer, last);
    }
}

/// The number of walks is the size of the set of walks: there are finitely
/// many walks of `k` hops from `s` to `t`, and `walks` counts them.
pub proof fn lemma_walks_count(g: Map<u32, Vec<u32>>, s: u32, t: u32, k: nat)
    ensures
        walk_set(g, s, t, k).finite(),
        walk_set(g, s, t, k).len() == walks(g, s, t, k),
    decreases k,
{
    let all = walk_set(g, s, t, k);
    if k == 0 {
        if s == t {
            let only = seq![s];
            assert forall|w: Seq<u32>| all.contains(w) <==> w == only by {
                if all.contains(w) {
                    assert(w =~= only);
                }
                assert(walk_of(g, s, s, only, 0));
            }
            assert(all =~= Set::empty().insert(only));
        } else {
            assert(all =~= Set::empty());
        }
    } else {
        assert forall|u: u32| #[trigger]
            walk_set(g, s, u, (k - 1) as nat).finite() && walk_set(g, s, u, (k - 1) as nat).len()
                == walks(g, s, u, (k - 1) as nat) by {
            lemma_walks_count(g, s, u, (k - 1) as nat);
        }
        lemma_walks_from_below(g, s, t, k, id_count());
        assert(all =~= walks_from_below(g, s, t, k, id_count()));
    }
}

/// The number of shortest paths is the size of the set of the walks of
/// least length.
pub proof fn lemma_sigma_counts_paths(g: Map<u32, Vec<u32>>, s: u32, t: u32)
    requires
        reachable(g, s, t),
    ensures
        walk_set(g, s, t, dist(g, s, t)).finite(),
        sigma(g, s, t) == walk_set(g, s, t, dist(g, s, t)).len(),
{
    reveal(sigma);
    lemma_walks_count(g, s, t, dist(g, s, t));
}

} // verus!
