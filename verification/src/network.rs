//! The network: arenas of stations, rails, trains and packages, the
//! shortest-path precomputation that fills every station's route table, and
//! the discrete-time driver that ticks all trains until every package has
//! arrived.
use vstd::multiset::Multiset;
use vstd::prelude::*;

use crate::edge::{edges_wf, Edge};
use crate::heap::{heap_contents, heap_is_empty, heap_is_min, heap_new, heap_pop, heap_push};
use crate::node::{
    node_edges_wf, node_refs_wf, nodes_edges_wf, nodes_refs_wf, sorted_by_distance, Node,
    ShortestPathToCritical,
};
use crate::package::Package;
use crate::train::{train_wf, Location, Train};
use crate::SimError;

verus! {

/// The whole simulated world. Stations, rails, trains and packages refer to
/// one another by their index in these arenas; `time` is the global clock.
pub struct Network {
    pub node: Vec<Node>,
    pub edge: Vec<Edge>,
    pub train: Vec<Train>,
    pub package: Vec<Package>,
    pub time: u64,
}

/// `path` lists rail indices that form a walk from `src` to `dst`: each
/// rail starts where the previous one ended. An empty walk stands still.
pub open spec fn is_path(edges: Seq<Edge>, path: Seq<usize>, src: int, dst: int) -> bool {
    &&& forall|i: int| 0 <= i < path.len() ==> path[i] < edges.len()
    &&& if path.len() == 0 {
        src == dst
    } else {
        &&& edges[path[0] as int].node1 == src
        &&& edges[path[path.len() - 1] as int].node2 == dst
        &&& forall|i: int|
            0 <= i < path.len() - 1 ==> edges[path[i] as int].node2 == edges[path[i + 1] as int].node1
    }
}

/// The combined traversal duration of a walk.
pub open spec fn path_weight(edges: Seq<Edge>, path: Seq<usize>) -> int
    decreases path.len(),
{
    if path.len() == 0 {
        0
    } else {
        edges[path.first() as int].journey_time + path_weight(edges, path.drop_first())
    }
}

pub proof fn lemma_path_weight_nonneg(edges: Seq<Edge>, path: Seq<usize>)
    ensures
        path_weight(edges, path) >= 0,
    decreases path.len(),
{
    if path.len() > 0 {
        lemma_path_weight_nonneg(edges, path.drop_first());
    }
}

pub proof fn lemma_path_weight_snoc(edges: Seq<Edge>, path: Seq<usize>, e: usize)
    ensures
        path_weight(edges, path.push(e)) == path_weight(edges, path) + edges[e as int].journey_time,
    decreases path.len(),
{
    if path.len() == 0 {
        assert(path.push(e).first() == e);
        assert(path.push(e).drop_first() =~= Seq::<usize>::empty());
        assert(path_weight(edges, path.push(e)) == edges[e as int].journey_time + path_weight(
            edges,
            path.push(e).drop_first(),
        ));
        assert(path_weight(edges, Seq::<usize>::empty()) == 0);
        assert(path_weight(edges, path) == 0);
    } else {
        assert(path.push(e).first() == path.first());
        assert(path.push(e).drop_first() =~= path.drop_first().push(e));
        lemma_path_weight_snoc(edges, path.drop_first(), e);
        assert(path_weight(edges, path.push(e)) == edges[path.first() as int].journey_time
            + path_weight(edges, path.push(e).drop_first()));
        assert(path_weight(edges, path) == edges[path.first() as int].journey_time + path_weight(
            edges,
            path.drop_first(),
        ));
    }
}

/// A walk extended by one rail out of its endpoint is a walk to that rail's
/// end.
pub proof fn lemma_path_extend(edges: Seq<Edge>, path: Seq<usize>, src: int, e: usize)
    requires
        e < edges.len(),
        is_path(edges, path, src, edges[e as int].node1 as int),
    ensures
        is_path(edges, path.push(e), src, edges[e as int].node2 as int),
        path_weight(edges, path.push(e)) == path_weight(edges, path) + edges[e as int].journey_time,
{
    lemma_path_weight_snoc(edges, path, e);
    let p2 = path.push(e);
    assert forall|i: int| 0 <= i < p2.len() - 1 implies edges[p2[i] as int].node2 == edges[p2[i
        + 1] as int].node1 by {
        if i < path.len() - 1 {
            assert(p2[i] == path[i] && p2[i + 1] == path[i + 1]);
        } else {
            assert(p2[i] == path[path.len() - 1] && p2[i + 1] == e);
        }
    }
}

/// A nonempty walk decomposes into its last rail and a walk to that rail's
/// start.
pub proof fn lemma_path_unsnoc(edges: Seq<Edge>, path: Seq<usize>, src: int, dst: int)
    requires
        is_path(edges, path, src, dst),
        path.len() > 0,
    ensures
        is_path(edges, path.drop_last(), src, edges[path.last() as int].node1 as int),
        path_weight(edges, path) == path_weight(edges, path.drop_last()) + edges[path.last() as int].journey_time,
        edges[path.last() as int].node2 == dst,
{
    assert(path.drop_last().push(path.last()) =~= path);
    lemma_path_weight_snoc(edges, path.drop_last(), path.last());
    if path.len() > 1 {
        assert(edges[path[path.len() - 2] as int].node2 == edges[path[path.len() - 1] as int].node1);
    }
}

/// The number of stations a shortest-path run has not yet finalized.
pub open spec fn count_false(s: Seq<bool>) -> nat
    decreases s.len(),
{
    if s.len() == 0 {
        0
    } else {
        (if s.first() {
            0nat
        } else {
            1nat
        }) + count_false(s.drop_first())
    }
}

pub proof fn lemma_count_false_update(s: Seq<bool>, i: int)
    requires
        0 <= i < s.len(),
        !s[i],
    ensures
        count_false(s) == count_false(s.update(i, true)) + 1,
    decreases s.len(),
{
    if i == 0 {
        assert(s.update(0, true).first());
        assert(s.update(0, true).drop_first() =~= s.drop_first());
    } else {
        assert(s.update(i, true).first() == s.first());
        assert(s.update(i, true).drop_first() =~= s.drop_first().update(i - 1, true));
        lemma_count_false_update(s.drop_first(), i - 1);
    }
}

/// Stamping the newly visited station with the next visit number keeps the
/// rank certificate: every visited station still ranks below the counter,
/// and every predecessor step among visited stations still strictly drops.
proof fn lemma_rank_stamp(
    n: int,
    prev: Seq<Option<usize>>,
    visited0: Seq<bool>,
    visited1: Seq<bool>,
    rank0: Seq<int>,
    rank1: Seq<int>,
    cnt: int,
    u: int,
)
    requires
        prev.len() == n,
        visited0.len() == n,
        rank0.len() == n,
        0 <= u < n,
        !visited0[u],
        visited1 == visited0.update(u, true),
        rank1 == rank0.update(u, cnt),
        forall|v: int| 0 <= v < n && (#[trigger] visited0[v]) ==> rank0[v] < cnt,
        forall|v: int|
            0 <= v < n && (#[trigger] prev[v]) is Some ==> prev[v].unwrap() < n && visited0[prev[
                v
            ].unwrap() as int],
        forall|v: int|
            0 <= v < n && (#[trigger] prev[v]) is Some && visited0[v] ==> rank0[prev[
                v
            ].unwrap() as int] < rank0[v],
    ensures
        forall|v: int| 0 <= v < n && (#[trigger] visited1[v]) ==> rank1[v] < cnt + 1,
        forall|v: int|
            0 <= v < n && (#[trigger] prev[v]) is Some && visited1[v] ==> rank1[prev[
                v
            ].unwrap() as int] < rank1[v],
{
    assert forall|v: int| 0 <= v < n && (#[trigger] visited1[v]) implies rank1[v] < cnt + 1 by {
        if v != u {
            assert(visited0[v] && rank1[v] == rank0[v]);
        }
    }
    assert forall|v: int|
        0 <= v < n && (#[trigger] prev[v]) is Some && visited1[v] implies rank1[prev[
        v
    ].unwrap() as int] < rank1[v] by {
        let w = prev[v].unwrap() as int;
        assert(visited0[w]);
        assert(w != u);
        assert(rank1[w] == rank0[w]);
        if v == u {
            assert(rank1[v] == cnt && rank0[w] < cnt);
        } else {
            assert(visited0[v] && rank1[v] == rank0[v]);
        }
    }
}

/// One relaxation obligation: if following rail `e` out of `u` stays within
/// the representable range, the rail's end has a recorded distance no worse
/// than going through `u`.
pub open spec fn relaxed_from(edges: Seq<Edge>, dist: Seq<Option<u64>>, u: int, e: int) -> bool {
    dist[u].unwrap() + edges[e].journey_time <= u64::MAX ==> dist[edges[e].node2 as int] is Some
        && dist[edges[e].node2 as int].unwrap() <= dist[u].unwrap() + edges[e].journey_time
}

/// The running state of a shortest-path computation, without the relaxation
/// obligations of the visited stations: every recorded distance is realized
/// by a walk, visited stations are final, the frontier holds a best entry
/// for every reached unvisited station, and the predecessor map points one
/// rail back along a walk that realizes the recorded distance.
pub open spec fn dijkstra_inv_base(
    n: int,
    edges: Seq<Edge>,
    source: usize,
    dist: Seq<Option<u64>>,
    prev: Seq<Option<usize>>,
    visited: Seq<bool>,
    heap: vstd::multiset::Multiset<(u64, usize)>,
) -> bool {
    &&& dist.len() == n
    &&& prev.len() == n
    &&& visited.len() == n
    &&& source < n
    &&& dist[source as int] == Some(0u64)
    &&& forall|v: int|
        0 <= v < n && (#[trigger] dist[v]) is Some ==> exists|pth: Seq<usize>|
            is_path(edges, pth, source as int, v) && path_weight(edges, pth) == dist[v].unwrap()
    &&& forall|v: int| 0 <= v < n && (#[trigger] visited[v]) ==> dist[v] is Some
    &&& forall|x: (u64, usize)|
        #[trigger] heap.count(x) > 0 ==> x.1 < n && dist[x.1 as int] is Some && dist[
            x.1 as int
        ].unwrap() <= x.0
    &&& forall|v: int|
        0 <= v < n && !visited[v] && (#[trigger] dist[v]) is Some ==> heap.count(
            (dist[v].unwrap(), v as usize),
        ) > 0
    &&& forall|v: int, pth: Seq<usize>|
        0 <= v < n && visited[v] && #[trigger] is_path(edges, pth, source as int, v) ==> dist[
            v
        ].unwrap() <= path_weight(edges, pth)
    &&& forall|v: int|
        0 <= v < n && (#[trigger] prev[v]) is Some ==> {
            &&& prev[v].unwrap() < n
            &&& visited[prev[v].unwrap() as int]
            &&& dist[v] is Some
            &&& dist[prev[v].unwrap() as int] is Some
            &&& exists|e: int|
                0 <= e < edges.len() && edges[e].node1 == prev[v].unwrap() && edges[e].node2 == v
                    && dist[v].unwrap() == dist[prev[v].unwrap() as int].unwrap()
                    + edges[e].journey_time
        }
    &&& prev[source as int] is None
    &&& forall|v: int|
        0 <= v < n && v != source && (#[trigger] dist[v]) is Some ==> prev[v] is Some
}

/// The full invariant: the base plus every visited station being relaxed
/// out along each of its rails.
pub open spec fn dijkstra_inv(
    n: int,
    edges: Seq<Edge>,
    source: usize,
    dist: Seq<Option<u64>>,
    prev: Seq<Option<usize>>,
    visited: Seq<bool>,
    heap: vstd::multiset::Multiset<(u64, usize)>,
) -> bool {
    &&& dijkstra_inv_base(n, edges, source, dist, prev, visited, heap)
    &&& forall|u: int, e: int|
        0 <= u < n && visited[u] && 0 <= e < edges.len() && edges[e].node1 == u
            ==> #[trigger] relaxed_from(edges, dist, u, e)
}

/// Any walk of representable weight that ends at an unvisited station passes
/// some unvisited frontier station whose recorded distance is no more than
/// the walk's weight — so the heap still holds an entry at most that heavy.
proof fn lemma_frontier(
    n: int,
    edges: Seq<Edge>,
    source: usize,
    dist: Seq<Option<u64>>,
    prev: Seq<Option<usize>>,
    visited: Seq<bool>,
    heap: vstd::multiset::Multiset<(u64, usize)>,
    pth: Seq<usize>,
    v: int,
)
    requires
        dijkstra_inv(n, edges, source, dist, prev, visited, heap),
        edges_wf(edges, n),
        0 <= v < n,
        !visited[v],
        is_path(edges, pth, source as int, v),
        path_weight(edges, pth) <= u64::MAX,
    ensures
        exists|y: int|
            {
                &&& 0 <= y < n
                &&& !visited[y]
                &&& dist[y] is Some
                &&& #[trigger] heap.count((dist[y].unwrap(), y as usize)) > 0
                &&& dist[y].unwrap() <= path_weight(edges, pth)
            },
    decreases pth.len(),
{
    if pth.len() == 0 {
        assert(v == source);
        assert(heap.count((dist[source as int].unwrap(), source)) > 0);
        assert(dist[v].unwrap() <= path_weight(edges, pth));
    } else {
        let e = pth.last();
        let x = edges[e as int].node1 as int;
        lemma_path_unsnoc(edges, pth, source as int, v);
        lemma_path_weight_nonneg(edges, pth.drop_last());
        if visited[x] {
            assert(dist[x].unwrap() <= path_weight(edges, pth.drop_last()));
            assert(relaxed_from(edges, dist, x, e as int));
            assert(dist[v] is Some && dist[v].unwrap() <= dist[x].unwrap() + edges[e as int].journey_time);
            assert(heap.count((dist[v].unwrap(), v as usize)) > 0);
        } else {
            lemma_frontier(n, edges, source, dist, prev, visited, heap, pth.drop_last(), x);
            let y = choose|y: int|
                {
                    &&& 0 <= y < n
                    &&& !visited[y]
                    &&& dist[y] is Some
                    &&& #[trigger] heap.count((dist[y].unwrap(), y as usize)) > 0
                    &&& dist[y].unwrap() <= path_weight(edges, pth.drop_last())
                };
            assert(dist[y].unwrap() <= path_weight(edges, pth));
        }
    }
}

/// A certificate that a predecessor map has no cycles: a measure that
/// strictly drops at every predecessor step, so following the map always
/// terminates.
pub open spec fn prev_acyclic(prev: Seq<Option<usize>>, rank: Seq<int>) -> bool {
    &&& rank.len() == prev.len()
    &&& forall|v: int|
        0 <= v < prev.len() && (#[trigger] prev[v]) is Some ==> rank[prev[v].unwrap() as int]
            < rank[v]
}

/// `d` is the shortest distance from `s` to `v`: some walk realizes it and
/// no walk of representable weight beats it.
pub open spec fn is_min_dist(edges: Seq<Edge>, s: int, v: int, d: int) -> bool {
    &&& exists|pth: Seq<usize>| is_path(edges, pth, s, v) && path_weight(edges, pth) == d
    &&& forall|pth: Seq<usize>|
        #[trigger] is_path(edges, pth, s, v) && path_weight(edges, pth) <= u64::MAX ==> d
            <= path_weight(edges, pth)
}

/// Indices among the first `upto` rails that leave station `i`, in order.
pub open spec fn edges_out_of(e: Seq<Edge>, i: usize, upto: int) -> Seq<usize>
    decreases upto,
{
    if upto <= 0 {
        Seq::empty()
    } else {
        edges_out_of(e, i, upto - 1) + (if e[upto - 1].node1 == i {
            seq![(upto - 1) as usize]
        } else {
            Seq::empty()
        })
    }
}

pub proof fn lemma_edges_out_of(e: Seq<Edge>, i: usize, upto: int)
    requires
        0 <= upto <= e.len(),
        e.len() <= usize::MAX,
    ensures
        forall|k: int|
            0 <= k < edges_out_of(e, i, upto).len() ==> (#[trigger] edges_out_of(e, i, upto)[k])
                < upto && e[edges_out_of(e, i, upto)[k] as int].node1 == i,
        forall|idx: int|
            0 <= idx < upto && e[idx].node1 == i ==> edges_out_of(e, i, upto).contains(
                idx as usize,
            ),
    decreases upto,
{
    if upto > 0 {
        lemma_edges_out_of(e, i, upto - 1);
        let s0 = edges_out_of(e, i, upto - 1);
        assert forall|k: int|
            0 <= k < edges_out_of(e, i, upto).len() implies (#[trigger] edges_out_of(e, i, upto)[k])
            < upto && e[edges_out_of(e, i, upto)[k] as int].node1 == i by {
            if k < s0.len() {
                assert(edges_out_of(e, i, upto)[k] == s0[k]);
            } else {
                assert(edges_out_of(e, i, upto)[k] == (upto - 1) as usize);
            }
        }
        assert forall|idx: int|
            0 <= idx < upto && e[idx].node1 == i implies edges_out_of(e, i, upto).contains(
            idx as usize,
        ) by {
            if idx < upto - 1 {
                let s0 = edges_out_of(e, i, upto - 1);
                let w = choose|w: int| 0 <= w < s0.len() && s0[w] == idx as usize;
                assert(edges_out_of(e, i, upto)[w] == idx as usize);
            } else {
                let s = edges_out_of(e, i, upto);
                assert(s[s.len() - 1] == idx as usize);
            }
        }
    }
}

pub proof fn lemma_pickups_at_bounds(p: Seq<Package>, i: usize, upto: int)
    requires
        0 <= upto <= p.len(),
        p.len() <= usize::MAX,
    ensures
        forall|k: int|
            0 <= k < pickups_at(p, i, upto).len() ==> (#[trigger] pickups_at(p, i, upto)[k])
                < upto,
        crate::node::distinct_indices(pickups_at(p, i, upto)),
    decreases upto,
{
    if upto > 0 {
        lemma_pickups_at_bounds(p, i, upto - 1);
        let s0 = pickups_at(p, i, upto - 1);
        assert forall|k: int|
            0 <= k < pickups_at(p, i, upto).len() implies (#[trigger] pickups_at(p, i, upto)[k])
            < upto by {
            if k < s0.len() {
                assert(pickups_at(p, i, upto)[k] == s0[k]);
            }
        }
        assert forall|a: int, b: int|
            0 <= a < b < pickups_at(p, i, upto).len() implies pickups_at(p, i, upto)[a]
            != pickups_at(p, i, upto)[b] by {
            if b < s0.len() {
                assert(pickups_at(p, i, upto)[a] == s0[a] && pickups_at(p, i, upto)[b] == s0[b]);
            } else {
                assert(pickups_at(p, i, upto)[b] == (upto - 1) as usize);
                assert(pickups_at(p, i, upto)[a] == s0[a] && s0[a] < upto - 1);
            }
        }
    }
}

pub proof fn lemma_dropoffs_at_bounds(p: Seq<Package>, i: usize, upto: int)
    requires
        0 <= upto <= p.len(),
        p.len() <= usize::MAX,
    ensures
        forall|k: int|
            0 <= k < dropoffs_at(p, i, upto).len() ==> (#[trigger] dropoffs_at(p, i, upto)[k])
                < upto,
        crate::node::distinct_indices(dropoffs_at(p, i, upto)),
    decreases upto,
{
    if upto > 0 {
        lemma_dropoffs_at_bounds(p, i, upto - 1);
        let s0 = dropoffs_at(p, i, upto - 1);
        assert forall|k: int|
            0 <= k < dropoffs_at(p, i, upto).len() implies (#[trigger] dropoffs_at(p, i, upto)[k])
            < upto by {
            if k < s0.len() {
                assert(dropoffs_at(p, i, upto)[k] == s0[k]);
            }
        }
        assert forall|a: int, b: int|
            0 <= a < b < dropoffs_at(p, i, upto).len() implies dropoffs_at(p, i, upto)[a]
            != dropoffs_at(p, i, upto)[b] by {
            if b < s0.len() {
                assert(dropoffs_at(p, i, upto)[a] == s0[a] && dropoffs_at(p, i, upto)[b] == s0[b]);
            } else {
                assert(dropoffs_at(p, i, upto)[b] == (upto - 1) as usize);
                assert(dropoffs_at(p, i, upto)[a] == s0[a] && s0[a] < upto - 1);
            }
        }
    }
}

/// Indices among the first `upto` trains whose initial position is station
/// `i`, in order.
pub open spec fn trains_starting_at(t: Seq<Train>, i: usize, upto: int) -> Seq<usize>
    decreases upto,
{
    if upto <= 0 {
        Seq::empty()
    } else {
        trains_starting_at(t, i, upto - 1) + (if t[upto - 1].location == Location::Node(i) {
            seq![(upto - 1) as usize]
        } else {
            Seq::empty()
        })
    }
}

/// Indices among the first `upto` packages whose pickup station is `i`, in
/// order.
pub open spec fn pickups_at(p: Seq<Package>, i: usize, upto: int) -> Seq<usize>
    decreases upto,
{
    if upto <= 0 {
        Seq::empty()
    } else {
        pickups_at(p, i, upto - 1) + (if p[upto - 1].start == i {
            seq![(upto - 1) as usize]
        } else {
            Seq::empty()
        })
    }
}

/// Indices among the first `upto` packages whose drop-off station is `i`,
/// in order.
pub open spec fn dropoffs_at(p: Seq<Package>, i: usize, upto: int) -> Seq<usize>
    decreases upto,
{
    if upto <= 0 {
        Seq::empty()
    } else {
        dropoffs_at(p, i, upto - 1) + (if p[upto - 1].end == i {
            seq![(upto - 1) as usize]
        } else {
            Seq::empty()
        })
    }
}

/// Every rail has a reverse — the shape of the networks the loading layer
/// builds, where each declared line yields a rail and its synthesized
/// reverse of the same duration.
pub open spec fn edges_symmetric(edges: Seq<Edge>) -> bool {
    forall|e: int|
        0 <= e < edges.len() ==> exists|e2: int|
            0 <= e2 < edges.len() && edges[e2].node1 == (#[trigger] edges[e]).node2
                && edges[e2].node2 == edges[e].node1
}

/// Where every rail has a reverse, an exact route-table entry's predecessor
/// map is walkable: a train standing at any mapped station has a rail toward
/// its next hop. Together with the driver's contract, a network of exact
/// tables over symmetric rails can only fail as unservable, never on a
/// missing rail.
pub proof fn lemma_entry_hops_ok(edges: Seq<Edge>, n: int, i: int, x: ShortestPathToCritical)
    requires
        entry_exact(edges, n, i, x),
        edges_symmetric(edges),
    ensures
        crate::node::hops_ok(x.path@, edges),
{
    assert forall|v: int|
        0 <= v < x.path@.len() && (#[trigger] x.path@[v]) is Some implies exists|e: int|
        0 <= e < edges.len() && edges[e].node1 == v && edges[e].node2 == x.path@[v].unwrap() by {
        let u = x.path@[v].unwrap();
        let (e, du, dv) = choose|e: int, du: int, dv: int|
            {
                &&& 0 <= e < edges.len()
                &&& edges[e].node1 == u
                &&& edges[e].node2 == v
                &&& is_min_dist(edges, x.destination as int, u as int, du)
                &&& is_min_dist(edges, x.destination as int, v, dv)
                &&& dv == du + edges[e].journey_time
            };
        let e2 = choose|e2: int|
            0 <= e2 < edges.len() && edges[e2].node1 == edges[e].node2 && edges[e2].node2
                == edges[e].node1;
        assert(0 <= e2 < edges.len() && edges[e2].node1 == v && edges[e2].node2 == u);
    }
}

/// The table `new_spc` is the canonical stable sort of `old_spc` extended
/// by exact new records: a permutation ranked by distance, ties keeping
/// attachment order.
pub open spec fn table_from_runs(
    edges: Seq<Edge>,
    n: int,
    i: int,
    old_spc: Seq<ShortestPathToCritical>,
    new_spc: Seq<ShortestPathToCritical>,
) -> bool {
    exists|pre: Seq<ShortestPathToCritical>|
        {
            &&& pre.len() >= old_spc.len()
            &&& pre.subrange(0, old_spc.len() as int) == old_spc
            &&& (forall|j: int|
                old_spc.len() <= j < pre.len() ==> entry_exact(edges, n, i, #[trigger] pre[j]))
            &&& new_spc == crate::node::stable_sort_by_distance(pre)
        }
}

/// What the precomputation records for one route-table entry attached to
/// station `i`: its destination resolves; its distance is exactly the least
/// weight of any walk from the destination to `i`; and its predecessor map
/// is the full map of that run — the run's source has no entry, every
/// station a representable walk reaches has one, each defined entry steps
/// one rail back along a shortest walk (the shortest distances on its two
/// ends differ by exactly that rail), and a certificate shows the map is
/// cycle-free.
pub open spec fn entry_exact(edges: Seq<Edge>, n: int, i: int, x: ShortestPathToCritical) -> bool {
    &&& x.destination < n
    &&& x.path@.len() == n
    &&& is_min_dist(edges, x.destination as int, i, x.distance_to_destination as int)
    &&& x.path@[x.destination as int] is None
    &&& (forall|v: int|
        #![trigger x.path@[v]]
        0 <= v < n && v != x.destination && (exists|pth: Seq<usize>|
            #[trigger] is_path(edges, pth, x.destination as int, v) && path_weight(edges, pth)
                <= u64::MAX) ==> x.path@[v] is Some)
    &&& (forall|v: int|
        0 <= v < n && (#[trigger] x.path@[v]) is Some ==> x.path@[v].unwrap() < n && exists|
            e: int,
            du: int,
            dv: int,
        |
            {
                &&& 0 <= e < edges.len()
                &&& edges[e].node1 == x.path@[v].unwrap()
                &&& edges[e].node2 == v
                &&& is_min_dist(edges, x.destination as int, x.path@[v].unwrap() as int, du)
                &&& is_min_dist(edges, x.destination as int, v, dv)
                &&& dv == du + edges[e].journey_time
            })
    &&& (exists|rank: Seq<int>| prev_acyclic(x.path@, rank))
}

/// Every train's journey records, in train order: the raw movement log
/// before ranking.
pub open spec fn all_history(trains: Seq<Train>) -> Seq<crate::train::History>
    decreases trains.len(),
{
    if trains.len() == 0 {
        Seq::empty()
    } else {
        trains.first().history@ + all_history(trains.drop_first())
    }
}

pub proof fn lemma_all_history_snoc(trains: Seq<Train>, t: Train)
    ensures
        all_history(trains.push(t)) == all_history(trains) + t.history@,
    decreases trains.len(),
{
    if trains.len() == 0 {
        assert(trains.push(t).first() == t);
        assert(trains.push(t).drop_first() =~= Seq::<Train>::empty());
        assert(all_history(trains.push(t)) == t.history@ + all_history(Seq::<Train>::empty()));
        assert(t.history@ + Seq::<crate::train::History>::empty() =~= t.history@);
        assert(all_history(trains) + t.history@ =~= t.history@);
    } else {
        assert(trains.push(t).first() == trains.first());
        assert(trains.push(t).drop_first() =~= trains.drop_first().push(t));
        lemma_all_history_snoc(trains.drop_first(), t);
        assert(all_history(trains.push(t)) == trains.first().history@ + all_history(
            trains.drop_first().push(t),
        ));
        assert(trains.first().history@ + (all_history(trains.drop_first()) + t.history@)
            =~= all_history(trains) + t.history@);
    }
}

/// Some kind of entity in a configuration hands two members one name.
pub open spec fn build_has_duplicate(
    nodes: Seq<Node>,
    edges: Seq<Edge>,
    trains: Seq<Train>,
    packages: Seq<Package>,
) -> bool {
    ||| exists|i: int, j: int| 0 <= i < j < nodes.len() && nodes[i].name@ == nodes[j].name@
    ||| exists|i: int, j: int| 0 <= i < j < edges.len() && edges[i].name@ == edges[j].name@
    ||| exists|i: int, j: int| 0 <= i < j < trains.len() && trains[i].name@ == trains[j].name@
    ||| exists|i: int, j: int|
        0 <= i < j < packages.len() && packages[i].name@ == packages[j].name@
}

/// Some rail, train or package of a configuration names a station that is
/// not registered.
pub open spec fn build_has_dangling_ref(
    n_nodes: int,
    edges: Seq<Edge>,
    trains: Seq<Train>,
    packages: Seq<Package>,
) -> bool {
    ||| exists|k: int| 0 <= k < edges.len() && ((#[trigger] edges[k]).node1 >= n_nodes || edges[k].node2 >= n_nodes)
    ||| exists|k: int| 0 <= k < trains.len() && (#[trigger] trains[k].location)->Node_0 >= n_nodes
    ||| exists|k: int|
        0 <= k < packages.len() && ((#[trigger] packages[k]).start >= n_nodes || packages[k].end >= n_nodes)
}

impl Network {
    /// The adjacency data is mutually consistent: every rail resolves, a
    /// station's outgoing list holds exactly the rails that leave it, and
    /// each such rail starts there.
    pub open spec fn graph_wf(self) -> bool {
        &&& edges_wf(self.edge@, self.node@.len() as int)
        &&& nodes_edges_wf(self.node@, self.edge@.len() as int)
        &&& forall|i: int, k: int|
            0 <= i < self.node@.len() && 0 <= k < self.node@[i].edge@.len()
                ==> self.edge@[#[trigger] self.node@[i].edge@[k] as int].node1 == i
        &&& forall|e: int|
            0 <= e < self.edge@.len() ==> self.node@[#[trigger] self.edge@[e].node1 as int].edge@
                .contains(e as usize)
    }

    /// The whole world is well formed: the graph is consistent, every
    /// station's package references resolve, and every train is well formed.
    pub open spec fn wf(self) -> bool {
        &&& self.graph_wf()
        &&& nodes_refs_wf(self.node@, self.package@.len() as int)
        &&& forall|k: int|
            0 <= k < self.train@.len() ==> train_wf(
                #[trigger] self.train@[k],
                self.node@.len() as int,
                self.edge@.len() as int,
                self.package@,
            )
    }

    pub fn new() -> (n: Network)
        ensures
            n.node@ == Seq::<Node>::empty(),
            n.edge@ == Seq::<Edge>::empty(),
            n.train@ == Seq::<Train>::empty(),
            n.package@ == Seq::<Package>::empty(),
            n.time == 0,
            n.wf(),
    {
        Network {
            node: Vec::new(),
            edge: Vec::new(),
            train: Vec::new(),
            package: Vec::new(),
            time: 0,
        }
    }

    /// Adopt `n` as the station arena. Station names must be unique; a
    /// repeated name is rejected with `DuplicateName` and nothing changes.
    pub fn initialize_node(&mut self, n: Vec<Node>) -> (r: Result<(), SimError>)
        ensures
            match r {
                Ok(()) => {
                    &&& *final(self) == (Network { node: final(self).node, ..*old(self) })
                    &&& final(self).node@ == n@
                    &&& forall|i: int, j: int|
                        0 <= i < j < n@.len() ==> n@[i].name@ != n@[j].name@
                },
                Err(e) => {
                    &&& e == SimError::DuplicateName
                    &&& *final(self) == *old(self)
                    &&& exists|i: int, j: int|
                        0 <= i < j < n@.len() && n@[i].name@ == n@[j].name@
                },
            },
    {
        let cnt = n.len();
        let mut i: usize = 0;
        while i < cnt
            invariant
                i <= cnt,
                cnt == n@.len(),
                forall|a: int, b: int| 0 <= a < b < n@.len() && a < i ==> n@[a].name@ != n@[b].name@,
            decreases cnt - i,
        {
            let mut j: usize = i + 1;
            while j < cnt
                invariant
                    i < j <= cnt,
                    cnt == n@.len(),
                    forall|b: int| i < b < j ==> n@[i as int].name@ != n@[b].name@,
                decreases cnt - j,
            {
                if n[i].name == n[j].name {
                    return Err(SimError::DuplicateName);
                }
                j += 1;
            }
            i += 1;
        }
        self.node = n;
        Ok(())
    }

    /// The index of the station registered under `name`; `NotFound` when no
    /// station carries it.
    pub fn get_node(&self, name: String) -> (r: Result<usize, SimError>)
        ensures
            match r {
                Ok(i) => {
                    &&& i < self.node@.len()
                    &&& self.node@[i as int].name@ == name@
                    &&& forall|k: int| 0 <= k < i ==> self.node@[k].name@ != name@
                },
                Err(e) => {
                    &&& e == SimError::NotFound
                    &&& forall|k: int| 0 <= k < self.node@.len() ==> self.node@[k].name@ != name@
                },
            },
    {
        let cnt = self.node.len();
        let mut i: usize = 0;
        while i < cnt
            invariant
                i <= cnt,
                cnt == self.node@.len(),
                forall|k: int| 0 <= k < i ==> self.node@[k].name@ != name@,
            decreases cnt - i,
        {
            if self.node[i].name == name {
                return Ok(i);
            }
            i += 1;
        }
        Err(SimError::NotFound)
    }

    /// Adopt `e` as the rail arena and register each rail with the station
    /// it leaves from. Rail names must be unique; a repeated name is
    /// rejected with `DuplicateName`, a rail naming an unregistered station
    /// with `NotFound`, and in either case nothing changes.
    pub fn initialize_edge(&mut self, e: Vec<Edge>) -> (r: Result<(), SimError>)
        ensures
            match r {
                Ok(()) => {
                    &&& *final(self) == (Network {
                        node: final(self).node,
                        edge: final(self).edge,
                        ..*old(self)
                    })
                    &&& final(self).edge@ == e@
                    &&& forall|i: int, j: int| 0 <= i < j < e@.len() ==> e@[i].name@ != e@[j].name@
                    &&& edges_wf(e@, old(self).node@.len() as int)
                    &&& final(self).node@.len() == old(self).node@.len()
                    &&& forall|i: int|
                        0 <= i < old(self).node@.len() ==> final(self).node@[i] == (Node {
                            edge: final(self).node@[i].edge,
                            ..old(self).node@[i]
                        })
                    &&& forall|i: int|
                        0 <= i < old(self).node@.len() ==> final(self).node@[i].edge@ == old(self).node@[i].edge@ + edges_out_of(e@, i as usize, e@.len() as int)
                    &&& (forall|i: int|
                        0 <= i < old(self).node@.len() ==> old(self).node@[i].edge@.len() == 0)
                        ==> final(self).graph_wf()
                },
                Err(err) => {
                    &&& *final(self) == *old(self)
                    &&& (err == SimError::DuplicateName || err == SimError::NotFound)
                    &&& (err == SimError::DuplicateName <==> exists|i: int, j: int|
                        0 <= i < j < e@.len() && e@[i].name@ == e@[j].name@)
                    &&& (err == SimError::NotFound ==> exists|k: int|
                        0 <= k < e@.len() && (e@[k].node1 >= old(self).node@.len() || e@[k].node2
                            >= old(self).node@.len()))
                },
            },
    {
        let cnt = e.len();
        let mut i: usize = 0;
        while i < cnt
            invariant
                i <= cnt,
                cnt == e@.len(),
                *self == *old(self),
                forall|a: int, b: int| 0 <= a < b < e@.len() && a < i ==> e@[a].name@ != e@[b].name@,
            decreases cnt - i,
        {
            let mut j: usize = i + 1;
            while j < cnt
                invariant
                    i < j <= cnt,
                    cnt == e@.len(),
                    *self == *old(self),
                    forall|b: int| i < b < j ==> e@[i as int].name@ != e@[b].name@,
                decreases cnt - j,
            {
                if e[i].name == e[j].name {
                    return Err(SimError::DuplicateName);
                }
                j += 1;
            }
            i += 1;
        }
        let n_nodes = self.node.len();
        let mut k: usize = 0;
        while k < cnt
            invariant
                k <= cnt,
                cnt == e@.len(),
                n_nodes == self.node@.len(),
                *self == *old(self),
                forall|a: int, b: int| 0 <= a < b < e@.len() ==> e@[a].name@ != e@[b].name@,
                forall|a: int| 0 <= a < k ==> e@[a].node1 < n_nodes && e@[a].node2 < n_nodes,
            decreases cnt - k,
        {
            if e[k].node1 >= n_nodes || e[k].node2 >= n_nodes {
                return Err(SimError::NotFound);
            }
            k += 1;
        }
        let ghost nodes0 = self.node@;
        let mut k: usize = 0;
        while k < cnt
            invariant
                k <= cnt,
                cnt == e@.len(),
                n_nodes == self.node@.len(),
                nodes0.len() == n_nodes,
                *self == (Network { node: self.node, ..*old(self) }),
                forall|a: int, b: int| 0 <= a < b < e@.len() ==> e@[a].name@ != e@[b].name@,
                forall|a: int| 0 <= a < cnt ==> e@[a].node1 < n_nodes && e@[a].node2 < n_nodes,
                forall|i: int|
                    0 <= i < n_nodes ==> self.node@[i] == (Node {
                        edge: self.node@[i].edge,
                        ..nodes0[i]
                    }),
                forall|i: int|
                    0 <= i < n_nodes ==> self.node@[i].edge@ == nodes0[i].edge@ + edges_out_of(
                        e@,
                        i as usize,
                        k as int,
                    ),
            decreases cnt - k,
        {
            let start = e[k].node1;
            let nd = vstd::std_specs::vec::vec_index_mut(&mut self.node, start);
            nd.add_edge(k);
            proof {
                assert forall|i: int| 0 <= i < n_nodes implies self.node@[i].edge@ == nodes0[i].edge@
                    + edges_out_of(e@, i as usize, k + 1) by {
                    if i == start {
                        assert(edges_out_of(e@, i as usize, k + 1) =~= edges_out_of(
                            e@,
                            i as usize,
                            k as int,
                        ).push(k));
                        assert(self.node@[i].edge@ =~= nodes0[i].edge@ + edges_out_of(
                            e@,
                            i as usize,
                            k + 1,
                        ));
                    } else {
                        assert(edges_out_of(e@, i as usize, k + 1) =~= edges_out_of(
                            e@,
                            i as usize,
                            k as int,
                        ));
                    }
                }
            }
            k += 1;
        }
        self.edge = e;
        proof {
            if forall|i: int| 0 <= i < nodes0.len() ==> nodes0[i].edge@.len() == 0 {
                assert forall|i: int| 0 <= i < n_nodes implies self.node@[i].edge@ == edges_out_of(
                    self.edge@,
                    i as usize,
                    cnt as int,
                ) by {
                    assert(nodes0[i].edge@ + edges_out_of(self.edge@, i as usize, cnt as int)
                        =~= edges_out_of(self.edge@, i as usize, cnt as int));
                }
                assert forall|i: int| 0 <= i < n_nodes implies node_edges_wf(
                    self.node@[i],
                    cnt as int,
                ) && (forall|kk: int|
                    0 <= kk < self.node@[i].edge@.len() ==> self.edge@[#[trigger] self.node@[i].edge@[kk] as int].node1
                        == i) by {
                    lemma_edges_out_of(self.edge@, i as usize, cnt as int);
                }
                assert forall|ei: int| 0 <= ei < cnt implies self.node@[#[trigger] self.edge@[ei].node1 as int].edge@
                    .contains(ei as usize) by {
                    lemma_edges_out_of(self.edge@, self.edge@[ei].node1, cnt as int);
                }
            }
        }
        Ok(())
    }

    /// The index of the rail registered under `name`; `NotFound` when no
    /// rail carries it.
    pub fn get_edge(&self, name: String) -> (r: Result<usize, SimError>)
        ensures
            match r {
                Ok(i) => {
                    &&& i < self.edge@.len()
                    &&& self.edge@[i as int].name@ == name@
                    &&& forall|k: int| 0 <= k < i ==> self.edge@[k].name@ != name@
                },
                Err(e) => {
                    &&& e == SimError::NotFound
                    &&& forall|k: int| 0 <= k < self.edge@.len() ==> self.edge@[k].name@ != name@
                },
            },
    {
        let cnt = self.edge.len();
        let mut i: usize = 0;
        while i < cnt
            invariant
                i <= cnt,
                cnt == self.edge@.len(),
                forall|k: int| 0 <= k < i ==> self.edge@[k].name@ != name@,
            decreases cnt - i,
        {
            if self.edge[i].name == name {
                return Ok(i);
            }
            i += 1;
        }
        Err(SimError::NotFound)
    }

    /// Adopt `t` as the train arena and park each train at its initial
    /// station, which becomes critical. Train names must be unique and every
    /// train must start at a station (not mid-rail); a repeated name is
    /// rejected with `DuplicateName`, one naming an unregistered station
    /// with `NotFound`, and in either case nothing changes.
    pub fn initialize_train(&mut self, t: Vec<Train>) -> (r: Result<(), SimError>)
        requires
            forall|k: int| 0 <= k < t@.len() ==> (#[trigger] t@[k].location) is Node,
        ensures
            match r {
                Ok(()) => {
                    &&& *final(self) == (Network {
                        node: final(self).node,
                        train: final(self).train,
                        ..*old(self)
                    })
                    &&& final(self).train@ == t@
                    &&& forall|i: int, j: int| 0 <= i < j < t@.len() ==> t@[i].name@ != t@[j].name@
                    &&& forall|k: int|
                        0 <= k < t@.len() ==> (#[trigger] t@[k].location)->Node_0 < old(self).node@.len()
                    &&& final(self).node@.len() == old(self).node@.len()
                    &&& forall|i: int|
                        0 <= i < old(self).node@.len() ==> final(self).node@[i] == (Node {
                            train_here: final(self).node@[i].train_here,
                            critical: old(self).node@[i].critical || trains_starting_at(
                                t@,
                                i as usize,
                                t@.len() as int,
                            ).len() > 0,
                            ..old(self).node@[i]
                        })
                    &&& forall|i: int|
                        0 <= i < old(self).node@.len() ==> final(self).node@[i].train_here@ == old(self).node@[i].train_here@ + trains_starting_at(t@, i as usize, t@.len() as int)
                },
                Err(err) => {
                    &&& *final(self) == *old(self)
                    &&& (err == SimError::DuplicateName || err == SimError::NotFound)
                    &&& (err == SimError::DuplicateName <==> exists|i: int, j: int|
                        0 <= i < j < t@.len() && t@[i].name@ == t@[j].name@)
                    &&& (err == SimError::NotFound ==> exists|k: int|
                        0 <= k < t@.len() && (#[trigger] t@[k].location)->Node_0 >= old(self).node@.len())
                },
            },
    {
        let cnt = t.len();
        let mut i: usize = 0;
        while i < cnt
            invariant
                i <= cnt,
                cnt == t@.len(),
                *self == *old(self),
                forall|a: int, b: int| 0 <= a < b < t@.len() && a < i ==> t@[a].name@ != t@[b].name@,
            decreases cnt - i,
        {
            let mut j: usize = i + 1;
            while j < cnt
                invariant
                    i < j <= cnt,
                    cnt == t@.len(),
                    *self == *old(self),
                    forall|b: int| i < b < j ==> t@[i as int].name@ != t@[b].name@,
                decreases cnt - j,
            {
                if t[i].name == t[j].name {
                    return Err(SimError::DuplicateName);
                }
                j += 1;
            }
            i += 1;
        }
        let n_nodes = self.node.len();
        let mut k: usize = 0;
        while k < cnt
            invariant
                k <= cnt,
                cnt == t@.len(),
                n_nodes == self.node@.len(),
                *self == *old(self),
                forall|a: int, b: int| 0 <= a < b < t@.len() ==> t@[a].name@ != t@[b].name@,
                forall|a: int| 0 <= a < t@.len() ==> (#[trigger] t@[a].location) is Node,
                forall|a: int| 0 <= a < k ==> (#[trigger] t@[a].location)->Node_0 < n_nodes,
            decreases cnt - k,
        {
            match t[k].location {
                Location::Node(s) => {
                    if s >= n_nodes {
                        return Err(SimError::NotFound);
                    }
                },
                Location::Edge(_) => {
                    proof {
                        assert(false);
                    }
                },
            }
            k += 1;
        }
        let ghost nodes0 = self.node@;
        let mut k: usize = 0;
        while k < cnt
            invariant
                k <= cnt,
                cnt == t@.len(),
                n_nodes == self.node@.len(),
                nodes0.len() == n_nodes,
                *self == (Network { node: self.node, ..*old(self) }),
                forall|a: int, b: int| 0 <= a < b < t@.len() ==> t@[a].name@ != t@[b].name@,
                forall|a: int| 0 <= a < t@.len() ==> (#[trigger] t@[a].location) is Node,
                forall|a: int| 0 <= a < cnt ==> (#[trigger] t@[a].location)->Node_0 < n_nodes,
                forall|i: int|
                    0 <= i < n_nodes ==> self.node@[i] == (Node {
                        train_here: self.node@[i].train_here,
                        critical: nodes0[i].critical || trains_starting_at(t@, i as usize, k as int).len()
                            > 0,
                        ..nodes0[i]
                    }),
                forall|i: int|
                    0 <= i < n_nodes ==> self.node@[i].train_here@ == nodes0[i].train_here@
                        + trains_starting_at(t@, i as usize, k as int),
            decreases cnt - k,
        {
            let s: usize;
            match t[k].location {
                Location::Node(s0) => {
                    s = s0;
                },
                Location::Edge(_) => {
                    proof {
                        assert(false);
                    }
                    s = 0;
                },
            }
            let nd = vstd::std_specs::vec::vec_index_mut(&mut self.node, s);
            nd.add_train(k);
            proof {
                assert forall|i: int| 0 <= i < n_nodes implies self.node@[i].train_here@
                    == nodes0[i].train_here@ + trains_starting_at(t@, i as usize, k + 1)
                    && self.node@[i] == (Node {
                    train_here: self.node@[i].train_here,
                    critical: nodes0[i].critical || trains_starting_at(t@, i as usize, k + 1).len()
                        > 0,
                    ..nodes0[i]
                }) by {
                    if i == s {
                        assert(trains_starting_at(t@, i as usize, k + 1) =~= trains_starting_at(
                            t@,
                            i as usize,
                            k as int,
                        ).push(k));
                        assert(self.node@[i].train_here@ =~= nodes0[i].train_here@
                            + trains_starting_at(t@, i as usize, k + 1));
                    } else {
                        assert(trains_starting_at(t@, i as usize, k + 1) =~= trains_starting_at(
                            t@,
                            i as usize,
                            k as int,
                        ));
                    }
                }
            }
            k += 1;
        }
        self.train = t;
        Ok(())
    }

    /// The index of the train registered under `name`; `NotFound` when no
    /// train carries it.
    pub fn get_train(&self, name: String) -> (r: Result<usize, SimError>)
        ensures
            match r {
                Ok(i) => {
                    &&& i < self.train@.len()
                    &&& self.train@[i as int].name@ == name@
                    &&& forall|k: int| 0 <= k < i ==> self.train@[k].name@ != name@
                },
                Err(e) => {
                    &&& e == SimError::NotFound
                    &&& forall|k: int| 0 <= k < self.train@.len() ==> self.train@[k].name@ != name@
                },
            },
    {
        let cnt = self.train.len();
        let mut i: usize = 0;
        while i < cnt
            invariant
                i <= cnt,
                cnt == self.train@.len(),
                forall|k: int| 0 <= k < i ==> self.train@[k].name@ != name@,
            decreases cnt - i,
        {
            if self.train[i].name == name {
                return Ok(i);
            }
            i += 1;
        }
        Err(SimError::NotFound)
    }

    /// Adopt `p` as the package arena: each package joins the pickup pool
    /// of its source station, and its identity joins the drop-off set of its
    /// destination station; both stations become critical. Package names
    /// must be unique; a repeated name is rejected with `DuplicateName`, a
    /// package naming an unregistered station with `NotFound`, and in either
    /// case nothing changes.
    pub fn initialize_package(&mut self, p: Vec<Package>) -> (r: Result<(), SimError>)
        ensures
            match r {
                Ok(()) => {
                    &&& *final(self) == (Network {
                        node: final(self).node,
                        package: final(self).package,
                        ..*old(self)
                    })
                    &&& final(self).package@ == p@
                    &&& forall|i: int, j: int| 0 <= i < j < p@.len() ==> p@[i].name@ != p@[j].name@
                    &&& forall|k: int|
                        0 <= k < p@.len() ==> (#[trigger] p@[k]).start < old(self).node@.len()
                            && p@[k].end < old(self).node@.len()
                    &&& final(self).node@.len() == old(self).node@.len()
                    &&& forall|i: int|
                        0 <= i < old(self).node@.len() ==> final(self).node@[i] == (Node {
                            pick_up_package: final(self).node@[i].pick_up_package,
                            drop_off_package: final(self).node@[i].drop_off_package,
                            critical: old(self).node@[i].critical || pickups_at(
                                p@,
                                i as usize,
                                p@.len() as int,
                            ).len() > 0 || dropoffs_at(p@, i as usize, p@.len() as int).len() > 0,
                            ..old(self).node@[i]
                        })
                    &&& forall|i: int|
                        0 <= i < old(self).node@.len() ==> final(self).node@[i].pick_up_package@
                            == old(self).node@[i].pick_up_package@ + pickups_at(
                            p@,
                            i as usize,
                            p@.len() as int,
                        )
                    // The drop-off sets: exactly the identities ending here
                    // join, each at most once.
                    &&& forall|i: int, x: usize|
                        #![trigger final(self).node@[i].drop_off_package@.contains(x)]
                        0 <= i < old(self).node@.len() ==> (final(self).node@[i].drop_off_package@.contains(x) <==> (old(self).node@[i].drop_off_package@.contains(x) || (x < p@.len() && p@[x as int].end
                            == i)))
                    &&& forall|i: int|
                        0 <= i < old(self).node@.len() ==> (crate::node::distinct_indices(
                            old(self).node@[i].drop_off_package@,
                        ) ==> crate::node::distinct_indices(
                            final(self).node@[i].drop_off_package@,
                        ))
                    &&& (forall|i: int|
                        0 <= i < old(self).node@.len() ==> old(self).node@[i].drop_off_package@.len() == 0) ==> forall|i: int|
                        0 <= i < old(self).node@.len()
                            ==> final(self).node@[i].drop_off_package@ == dropoffs_at(
                            p@,
                            i as usize,
                            p@.len() as int,
                        )
                },
                Err(err) => {
                    &&& *final(self) == *old(self)
                    &&& (err == SimError::DuplicateName || err == SimError::NotFound)
                    &&& (err == SimError::DuplicateName <==> exists|i: int, j: int|
                        0 <= i < j < p@.len() && p@[i].name@ == p@[j].name@)
                    &&& (err == SimError::NotFound ==> exists|k: int|
                        0 <= k < p@.len() && ((#[trigger] p@[k]).start >= old(self).node@.len()
                            || p@[k].end >= old(self).node@.len()))
                },
            },
    {
        let cnt = p.len();
        let mut i: usize = 0;
        while i < cnt
            invariant
                i <= cnt,
                cnt == p@.len(),
                *self == *old(self),
                forall|a: int, b: int| 0 <= a < b < p@.len() && a < i ==> p@[a].name@ != p@[b].name@,
            decreases cnt - i,
        {
            let mut j: usize = i + 1;
            while j < cnt
                invariant
                    i < j <= cnt,
                    cnt == p@.len(),
                    *self == *old(self),
                    forall|b: int| i < b < j ==> p@[i as int].name@ != p@[b].name@,
                decreases cnt - j,
            {
                if p[i].name == p[j].name {
                    return Err(SimError::DuplicateName);
                }
                j += 1;
            }
            i += 1;
        }
        let n_nodes = self.node.len();
        let mut k: usize = 0;
        while k < cnt
            invariant
                k <= cnt,
                cnt == p@.len(),
                n_nodes == self.node@.len(),
                *self == *old(self),
                forall|a: int, b: int| 0 <= a < b < p@.len() ==> p@[a].name@ != p@[b].name@,
                forall|a: int|
                    0 <= a < k ==> (#[trigger] p@[a]).start < n_nodes && p@[a].end < n_nodes,
            decreases cnt - k,
        {
            if p[k].start >= n_nodes || p[k].end >= n_nodes {
                return Err(SimError::NotFound);
            }
            k += 1;
        }
        let ghost nodes0 = self.node@;
        let mut k: usize = 0;
        while k < cnt
            invariant
                k <= cnt,
                cnt == p@.len(),
                n_nodes == self.node@.len(),
                nodes0.len() == n_nodes,
                *self == (Network { node: self.node, ..*old(self) }),
                forall|a: int, b: int| 0 <= a < b < p@.len() ==> p@[a].name@ != p@[b].name@,
                forall|a: int|
                    0 <= a < cnt ==> (#[trigger] p@[a]).start < n_nodes && p@[a].end < n_nodes,
                forall|i: int|
                    0 <= i < n_nodes ==> self.node@[i] == (Node {
                        pick_up_package: self.node@[i].pick_up_package,
                        drop_off_package: self.node@[i].drop_off_package,
                        critical: nodes0[i].critical || pickups_at(p@, i as usize, k as int).len()
                            > 0 || dropoffs_at(p@, i as usize, k as int).len() > 0,
                        ..nodes0[i]
                    }),
                forall|i: int|
                    0 <= i < n_nodes ==> self.node@[i].pick_up_package@
                        == nodes0[i].pick_up_package@ + pickups_at(p@, i as usize, k as int),
                forall|i: int, x: usize|
                    #![trigger self.node@[i].drop_off_package@.contains(x)]
                    0 <= i < n_nodes ==> (self.node@[i].drop_off_package@.contains(x) <==> (
                    nodes0[i].drop_off_package@.contains(x) || (x < k && p@[x as int].end == i))),
                forall|i: int|
                    0 <= i < n_nodes ==> (crate::node::distinct_indices(
                        nodes0[i].drop_off_package@,
                    ) ==> crate::node::distinct_indices(self.node@[i].drop_off_package@)),
                (forall|i: int| 0 <= i < n_nodes ==> nodes0[i].drop_off_package@.len() == 0)
                    ==> forall|i: int|
                    0 <= i < n_nodes ==> self.node@[i].drop_off_package@ == dropoffs_at(
                        p@,
                        i as usize,
                        k as int,
                    ),
            decreases cnt - k,
        {
            let ghost entry_nodes = self.node@;
            let start = p[k].start;
            let nd = vstd::std_specs::vec::vec_index_mut(&mut self.node, start);
            nd.add_pick_up_package(k);
            let ghost mid_nodes = self.node@;
            let end = p[k].end;
            let nd2 = vstd::std_specs::vec::vec_index_mut(&mut self.node, end);
            nd2.add_drop_off_package(k);
            proof {
                assert forall|i: int| 0 <= i < n_nodes implies mid_nodes[i].drop_off_package@
                    == entry_nodes[i].drop_off_package@ by {}
                assert forall|i: int| 0 <= i < n_nodes implies self.node@[i].pick_up_package@
                    == nodes0[i].pick_up_package@ + pickups_at(p@, i as usize, k + 1) by {
                    if i == start {
                        assert(pickups_at(p@, i as usize, k + 1) =~= pickups_at(
                            p@,
                            i as usize,
                            k as int,
                        ).push(k));
                        assert(self.node@[i].pick_up_package@ =~= nodes0[i].pick_up_package@
                            + pickups_at(p@, i as usize, k + 1));
                    } else {
                        assert(pickups_at(p@, i as usize, k + 1) =~= pickups_at(
                            p@,
                            i as usize,
                            k as int,
                        ));
                    }
                }
                assert forall|i: int, x: usize|
                    #![trigger self.node@[i].drop_off_package@.contains(x)]
                    0 <= i < n_nodes implies (self.node@[i].drop_off_package@.contains(x) <==> (
                    nodes0[i].drop_off_package@.contains(x) || (x < k + 1 && p@[x as int].end
                        == i))) by {
                    assert(entry_nodes[i].drop_off_package@.contains(x) <==> (
                    nodes0[i].drop_off_package@.contains(x) || (x < k && p@[x as int].end == i)));
                    assert(mid_nodes[i].drop_off_package@ == entry_nodes[i].drop_off_package@);
                    if i == end {
                        assert(self.node@[i].drop_off_package@.contains(x) <==> (
                        mid_nodes[i].drop_off_package@.contains(x) || x == k));
                    } else {
                        assert(self.node@[i].drop_off_package@ == mid_nodes[i].drop_off_package@);
                    }
                }
                assert forall|i: int|
                    0 <= i < n_nodes implies (crate::node::distinct_indices(
                    nodes0[i].drop_off_package@,
                ) ==> crate::node::distinct_indices(self.node@[i].drop_off_package@)) by {
                    assert(mid_nodes[i].drop_off_package@ == entry_nodes[i].drop_off_package@);
                    if i != end {
                        assert(self.node@[i].drop_off_package@ == mid_nodes[i].drop_off_package@);
                    }
                }
                if forall|i: int| 0 <= i < n_nodes ==> nodes0[i].drop_off_package@.len() == 0 {
                    assert forall|i: int|
                        0 <= i < n_nodes implies self.node@[i].drop_off_package@ == dropoffs_at(
                        p@,
                        i as usize,
                        k + 1,
                    ) by {
                        if i == end {
                            lemma_dropoffs_at_bounds(p@, i as usize, k as int);
                            assert(!mid_nodes[i].drop_off_package@.contains(k)) by {
                                assert(mid_nodes[i].drop_off_package@
                                    == entry_nodes[i].drop_off_package@);
                                if mid_nodes[i].drop_off_package@.contains(k) {
                                    assert(nodes0[i].drop_off_package@.contains(k) || (k < k
                                        && p@[k as int].end == i));
                                }
                            }
                            assert(dropoffs_at(p@, i as usize, k + 1) =~= dropoffs_at(
                                p@,
                                i as usize,
                                k as int,
                            ).push(k));
                            assert(self.node@[i].drop_off_package@ =~= dropoffs_at(
                                p@,
                                i as usize,
                                k + 1,
                            ));
                        } else {
                            assert(self.node@[i].drop_off_package@
                                == mid_nodes[i].drop_off_package@);
                            assert(dropoffs_at(p@, i as usize, k + 1) =~= dropoffs_at(
                                p@,
                                i as usize,
                                k as int,
                            ));
                        }
                    }
                }
            }
            k += 1;
        }
        self.package = p;
        Ok(())
    }

    /// The index of the package registered under `name`; `NotFound` when no
    /// package carries it.
    pub fn get_package(&self, name: String) -> (r: Result<usize, SimError>)
        ensures
            match r {
                Ok(i) => {
                    &&& i < self.package@.len()
                    &&& self.package@[i as int].name@ == name@
                    &&& forall|k: int| 0 <= k < i ==> self.package@[k].name@ != name@
                },
                Err(e) => {
                    &&& e == SimError::NotFound
                    &&& forall|k: int|
                        0 <= k < self.package@.len() ==> self.package@[k].name@ != name@
                },
            },
    {
        let cnt = self.package.len();
        let mut i: usize = 0;
        while i < cnt
            invariant
                i <= cnt,
                cnt == self.package@.len(),
                forall|k: int| 0 <= k < i ==> self.package@[k].name@ != name@,
            decreases cnt - i,
        {
            if self.package[i].name == name {
                return Ok(i);
            }
            i += 1;
        }
        Err(SimError::NotFound)
    }

    /// Single-source shortest paths from `source`, by the classic
    /// least-tentative-distance-first search over the nonnegative rail
    /// durations. Returns, per station, the distance of a shortest walk
    /// from `source` (`None` for stations no walk of representable weight
    /// reaches) and the predecessor on such a walk (`None` for the source
    /// itself and for unreached stations).
    #[verifier::rlimit(100)]
    pub fn dijkstra(&self, source: usize) -> (r: (Vec<Option<u64>>, Vec<Option<usize>>))
        requires
            source < self.node@.len(),
            self.graph_wf(),
        ensures
            r.0@.len() == self.node@.len(),
            r.1@.len() == self.node@.len(),
            r.0@[source as int] == Some(0u64),
            forall|v: int|
                0 <= v < self.node@.len() && (#[trigger] r.0@[v]) is Some ==> exists|
                    pth: Seq<usize>,
                |
                    is_path(self.edge@, pth, source as int, v) && path_weight(self.edge@, pth)
                        == r.0@[v].unwrap(),
            forall|v: int, pth: Seq<usize>|
                0 <= v < self.node@.len() && #[trigger] is_path(self.edge@, pth, source as int, v)
                    && path_weight(self.edge@, pth) <= u64::MAX ==> r.0@[v] is Some && r.0@[
                    v
                ].unwrap() <= path_weight(self.edge@, pth),
            r.1@[source as int] is None,
            forall|v: int|
                0 <= v < self.node@.len() && (#[trigger] r.1@[v]) is Some ==> {
                    &&& r.1@[v].unwrap() < self.node@.len()
                    &&& r.0@[v] is Some
                    &&& r.0@[r.1@[v].unwrap() as int] is Some
                    &&& exists|e: int|
                        0 <= e < self.edge@.len() && self.edge@[e].node1 == r.1@[v].unwrap()
                            && self.edge@[e].node2 == v && r.0@[v].unwrap() == r.0@[
                            r.1@[v].unwrap() as int
                        ].unwrap() + self.edge@[e].journey_time
                },
            forall|v: int|
                0 <= v < self.node@.len() && v != source && (#[trigger] r.0@[v]) is Some ==> r.1@[
                    v
                ] is Some,
            exists|rank: Seq<int>| prev_acyclic(r.1@, rank),
    {
        let n = self.node.len();
        let n_e = self.edge.len();
        let ghost ed = self.edge@;
        let mut dist: Vec<Option<u64>> = Vec::new();
        let mut prev: Vec<Option<usize>> = Vec::new();
        let mut visited: Vec<bool> = Vec::new();
        let mut i: usize = 0;
        while i < n
            invariant
                i <= n,
                dist@.len() == i,
                prev@.len() == i,
                visited@.len() == i,
                forall|k: int| 0 <= k < i ==> (#[trigger] dist@[k]) is None,
                forall|k: int| 0 <= k < i ==> (#[trigger] prev@[k]) is None,
                forall|k: int| 0 <= k < i ==> !(#[trigger] visited@[k]),
            decreases n - i,
        {
            dist.push(None);
            prev.push(None);
            visited.push(false);
            i += 1;
        }
        let ghost mut rank: Seq<int> = Seq::new(n as nat, |i: int| -1);
        let ghost mut visit_cnt: int = 0;
        set_at(&mut dist, source, Some(0u64));
        let mut pq = heap_new();
        heap_push(&mut pq, (0u64, source));
        proof {
            assert(is_path(ed, Seq::<usize>::empty(), source as int, source as int));
            assert(path_weight(ed, Seq::<usize>::empty()) == 0);
            broadcast use vstd::multiset::group_multiset_axioms;

        }
        while !heap_is_empty(&pq)
            invariant
                n == self.node@.len(),
                n_e == ed.len(),
                ed == self.edge@,
                source < n,
                self.graph_wf(),
                heap_is_min(pq),
                dijkstra_inv(
                    n as int,
                    ed,
                    source,
                    dist@,
                    prev@,
                    visited@,
                    heap_contents(pq),
                ),
                rank.len() == n,
                forall|v: int| 0 <= v < n && (#[trigger] visited@[v]) ==> rank[v] < visit_cnt,
                forall|v: int|
                    0 <= v < n && (#[trigger] prev@[v]) is Some && visited@[v] ==> rank[prev@[
                        v
                    ].unwrap() as int] < rank[v],
            decreases count_false(visited@), heap_contents(pq).len(),
        {
            let ghost heap0 = heap_contents(pq);
            let popped = heap_pop(&mut pq);
            proof {
                broadcast use vstd::multiset::group_multiset_axioms;

            }
            match popped {
                None => {
                    proof {
                        assert(false);
                    }
                },
                Some(pr) => {
                    let d = pr.0;
                    let u = pr.1;
                    if !visited[u] {
                        // The popped entry is the least in the heap, and the
                        // heap still held this station's best entry, so the
                        // popped distance is exactly the recorded one.
                        proof {
                            assert(heap0.count((dist@[u as int].unwrap(), u)) > 0);
                            assert(d == dist@[u as int].unwrap());
                        }
                        // Every walk to `u` weighs at least the recorded
                        // distance: it crosses the frontier, whose entries
                        // all weigh at least the popped minimum.
                        proof {
                            assert forall|pth: Seq<usize>|
                                #[trigger] is_path(ed, pth, source as int, u as int) implies dist@[
                                u as int
                            ].unwrap() <= path_weight(ed, pth) by {
                                if path_weight(ed, pth) <= u64::MAX {
                                    lemma_frontier(
                                        n as int,
                                        ed,
                                        source,
                                        dist@,
                                        prev@,
                                        visited@,
                                        heap0,
                                        pth,
                                        u as int,
                                    );
                                    let y = choose|y: int|
                                        {
                                            &&& 0 <= y < n
                                            &&& !visited@[y]
                                            &&& dist@[y] is Some
                                            &&& #[trigger] heap0.count(
                                                (dist@[y].unwrap(), y as usize),
                                            ) > 0
                                            &&& dist@[y].unwrap() <= path_weight(ed, pth)
                                        };
                                }
                            }
                        }
                        let ghost visited0 = visited@;
                        set_at(&mut visited, u, true);
                        proof {
                            lemma_count_false_update(visited0, u as int);
                            // Stamp the visit order: `u` outranks everything
                            // visited so far, and in particular its own
                            // predecessor, which was visited earlier.
                            let ghost rank0 = rank;
                            rank = rank.update(u as int, visit_cnt);
                            assert forall|v: int|
                                0 <= v < n && (#[trigger] prev@[v]) is Some implies prev@[
                                v
                            ].unwrap() < n && visited0[prev@[v].unwrap() as int] by {}
                            lemma_rank_stamp(
                                n as int,
                                prev@,
                                visited0,
                                visited@,
                                rank0,
                                rank,
                                visit_cnt,
                                u as int,
                            );
                            visit_cnt = visit_cnt + 1;
                        }
                        let du = match dist[u] {
                            Some(x) => x,
                            None => {
                                proof {
                                    assert(false);
                                }
                                0
                            },
                        };
                        proof {
                            assert(crate::node::node_edges_wf(
                                self.node@[u as int],
                                ed.len() as int,
                            ));
                        }
                        let node_u = &self.node[u];
                        let neighbours = node_u.get_neighbours(&self.edge);
                        let n_nbr = neighbours.len();
                        let ghost adj = node_u.edge@;
                        let mut k: usize = 0;
                        while k < n_nbr
                            invariant
                                n == self.node@.len(),
                                n_e == ed.len(),
                                ed == self.edge@,
                                source < n,
                                u < n,
                                self.graph_wf(),
                                edges_wf(ed, n as int),
                                forall|kk: int| 0 <= kk < adj.len() ==> (#[trigger] adj[kk]) < n_e,
                                heap_is_min(pq),
                                n_nbr == neighbours@.len(),
                                n_nbr == adj.len(),
                                adj == self.node@[u as int].edge@,
                                forall|kk: int|
                                    0 <= kk < n_nbr ==> (#[trigger] neighbours@[kk]) == (
                                        ed[adj[kk] as int].node2,
                                        ed[adj[kk] as int].journey_time,
                                    ),
                                visited@[u as int],
                                dist@[u as int] == Some(du),
                                dijkstra_inv_base(
                                    n as int,
                                    ed,
                                    source,
                                    dist@,
                                    prev@,
                                    visited@,
                                    heap_contents(pq),
                                ),
                                forall|uu: int, e: int|
                                    0 <= uu < n && visited@[uu] && uu != u && 0 <= e < ed.len()
                                        && ed[e].node1 == uu ==> #[trigger] relaxed_from(
                                        ed,
                                        dist@,
                                        uu,
                                        e,
                                    ),
                                forall|kk: int|
                                    0 <= kk < k ==> #[trigger] relaxed_from(
                                        ed,
                                        dist@,
                                        u as int,
                                        adj[kk] as int,
                                    ),
                                count_false(visited@) == count_false(visited0) - 1,
                                rank.len() == n,
                                forall|v: int|
                                    0 <= v < n && (#[trigger] visited@[v]) ==> rank[v] < visit_cnt,
                                forall|v: int|
                                    0 <= v < n && (#[trigger] prev@[v]) is Some && visited@[v]
                                        ==> rank[prev@[v].unwrap() as int] < rank[v],
                            decreases n_nbr - k,
                        {
                            let ghost e_idx = adj[k as int];
                            let pr2 = neighbours[k];
                            let nbr = pr2.0;
                            let w = pr2.1;
                            proof {
                                broadcast use vstd::multiset::group_multiset_axioms;

                                assert(e_idx < ed.len());
                                assert(ed[e_idx as int].node2 == nbr && ed[e_idx as int].journey_time
                                    == w);
                                assert(ed[e_idx as int].node2 < n && ed[e_idx as int].node1 < n);
                                assert(nbr < n);
                            }
                            if !visited[nbr] {
                                if du <= u64::MAX - w {
                                    let nd = du + w;
                                    let better = match dist[nbr] {
                                        None => true,
                                        Some(old_d) => nd < old_d,
                                    };
                                    if better {
                                        let ghost dist0 = dist@;
                                        let ghost prev0 = prev@;
                                        let ghost hp0 = heap_contents(pq);
                                        set_at(&mut dist, nbr, Some(nd));
                                        set_at(&mut prev, nbr, Some(u));
                                        heap_push(&mut pq, (nd, nbr));
                                        proof {
                                            broadcast use vstd::multiset::group_multiset_axioms;

                                            // A walk realizing the new
                                            // distance: one to `u`, extended
                                            // by this rail.
                                            let pu = choose|pth: Seq<usize>|
                                                is_path(ed, pth, source as int, u as int)
                                                    && path_weight(ed, pth) == dist0[
                                                    u as int
                                                ].unwrap();
                                            lemma_path_extend(ed, pu, source as int, e_idx);
                                            assert(is_path(ed, pu.push(e_idx), source as int, nbr as int)
                                                && path_weight(ed, pu.push(e_idx)) == nd);
                                            // Visited stations keep their
                                            // walks and their bounds.
                                            assert forall|v: int|
                                                0 <= v < n && (#[trigger] dist@[v]) is Some implies
                                            exists|pth: Seq<usize>|
                                                is_path(ed, pth, source as int, v) && path_weight(
                                                    ed,
                                                    pth,
                                                ) == dist@[v].unwrap() by {
                                                if v == nbr as int {
                                                    assert(is_path(
                                                        ed,
                                                        pu.push(e_idx),
                                                        source as int,
                                                        v,
                                                    ) && path_weight(ed, pu.push(e_idx)) == dist@[
                                                        v
                                                    ].unwrap());
                                                } else {
                                                    assert(dist0[v] == dist@[v]);
                                                }
                                            }
                                            // The fresh entry and the new
                                            // record agree; stale entries
                                            // only got looser.
                                            let hp = heap_contents(pq);
                                            assert(hp == hp0.insert((nd, nbr)));
                                            assert forall|x: (u64, usize)|
                                                #[trigger] hp.count(x) > 0 implies x.1 < n
                                                && dist@[x.1 as int] is Some && dist@[
                                                x.1 as int
                                            ].unwrap() <= x.0 by {
                                                if x != ((nd, nbr)) {
                                                    assert(hp.count(x) == hp0.count(x)
                                                        + Multiset::singleton((nd, nbr)).count(x));
                                                    assert(hp0.count(x) > 0);
                                                    assert(dist0[x.1 as int] is Some && dist0[
                                                        x.1 as int
                                                    ].unwrap() <= x.0);
                                                }
                                            }
                                            // The new predecessor entry is
                                            // witnessed by this rail; older
                                            // entries point at visited
                                            // stations whose records did not
                                            // move.
                                            assert forall|v: int|
                                                0 <= v < n && (#[trigger] prev@[v]) is Some
                                                implies {
                                                &&& prev@[v].unwrap() < n
                                                &&& visited@[prev@[v].unwrap() as int]
                                                &&& dist@[v] is Some
                                                &&& dist@[prev@[v].unwrap() as int] is Some
                                                &&& exists|e: int|
                                                    0 <= e < ed.len() && ed[e].node1 == prev@[
                                                        v
                                                    ].unwrap() && ed[e].node2 == v && dist@[
                                                        v
                                                    ].unwrap() == dist@[
                                                        prev@[v].unwrap() as int
                                                    ].unwrap() + ed[e].journey_time
                                            } by {
                                                if v == nbr as int {
                                                    assert(ed[e_idx as int].node1 == u
                                                        && ed[e_idx as int].node2 == v && dist@[
                                                        v
                                                    ].unwrap() == dist@[u as int].unwrap() + ed[
                                                        e_idx as int
                                                    ].journey_time);
                                                } else {
                                                    assert(prev@[v] == prev0[v]);
                                                    assert(dist@[v] == dist0[v]);
                                                    assert(prev0[v].unwrap() != nbr);
                                                    assert(dist@[prev0[v].unwrap() as int]
                                                        == dist0[prev0[v].unwrap() as int]);
                                                }
                                            }
                                            // Relaxation bounds only get
                                            // tighter when a record shrinks.
                                            assert forall|uu: int, e: int|
                                                0 <= uu < n && visited@[uu] && uu != u as int && 0
                                                    <= e < ed.len() && ed[e].node1 == uu implies
                                            #[trigger] relaxed_from(ed, dist@, uu, e) by {
                                                assert(relaxed_from(ed, dist0, uu, e));
                                                assert(dist@[uu] == dist0[uu]);
                                            }
                                            assert forall|kk: int|
                                                0 <= kk < k implies #[trigger] relaxed_from(
                                                ed,
                                                dist@,
                                                u as int,
                                                adj[kk] as int,
                                            ) by {
                                                assert(relaxed_from(ed, dist0, u as int, adj[kk] as int));
                                                assert(dist@[u as int] == dist0[u as int]);
                                            }
                                        }
                                    }
                                }
                            }
                            proof {
                                assert(relaxed_from(ed, dist@, u as int, e_idx as int)) by {
                                    if visited@[nbr as int] {
                                        if dist@[u as int].unwrap() + w <= u64::MAX {
                                            let pu = choose|pth: Seq<usize>|
                                                is_path(ed, pth, source as int, u as int)
                                                    && path_weight(ed, pth) == dist@[
                                                    u as int
                                                ].unwrap();
                                            lemma_path_extend(ed, pu, source as int, e_idx);
                                            assert(is_path(
                                                ed,
                                                pu.push(e_idx),
                                                source as int,
                                                nbr as int,
                                            ));
                                        }
                                    }
                                }
                            }
                            k += 1;
                        }
                        // Every rail out of `u` is registered in its list,
                        // so `u` is now fully relaxed out.
                        proof {
                            assert forall|e: int|
                                0 <= e < ed.len() && ed[e].node1 == u as int implies
                            #[trigger] relaxed_from(ed, dist@, u as int, e) by {
                                assert(self.node@[ed[e].node1 as int].edge@.contains(e as usize));
                                let kk = choose|kk: int|
                                    0 <= kk < adj.len() && adj[kk] == e as usize;
                                assert(relaxed_from(ed, dist@, u as int, adj[kk] as int));
                            }
                        }
                    }
                },
            }
        }
        // The frontier is spent: every station a representable walk reaches
        // has been visited and finalized.
        proof {
            broadcast use vstd::multiset::group_multiset_axioms;

            assert forall|v: int|
                0 <= v < n && (#[trigger] prev@[v]) is Some implies rank[prev@[v].unwrap() as int]
                < rank[v] by {
                if !visited@[v] {
                    assert(heap_contents(pq).count((dist@[v].unwrap(), v as usize)) > 0);
                    assert(false);
                }
            }
            assert(prev_acyclic(prev@, rank));

            assert forall|v: int, pth: Seq<usize>|
                0 <= v < n && #[trigger] is_path(ed, pth, source as int, v) && path_weight(ed, pth)
                    <= u64::MAX implies dist@[v] is Some && dist@[v].unwrap() <= path_weight(
                ed,
                pth,
            ) by {
                if !visited@[v] {
                    lemma_frontier(
                        n as int,
                        ed,
                        source,
                        dist@,
                        prev@,
                        visited@,
                        heap_contents(pq),
                        pth,
                        v,
                    );
                    let y = choose|y: int|
                        {
                            &&& 0 <= y < n
                            &&& !visited@[y]
                            &&& dist@[y] is Some
                            &&& #[trigger] heap_contents(pq).count(
                                (dist@[y].unwrap(), y as usize),
                            ) > 0
                            &&& dist@[y].unwrap() <= path_weight(ed, pth)
                        };
                    assert(heap_contents(pq).len() > 0);
                    assert(false);
                }
            }
        }
        (dist, prev)
    }

    /// An entry assembled from one run's outputs — the recorded distance,
    /// the run's source, and its full predecessor map — meets the exact
    /// route-table contract.
    proof fn lemma_entry_from_run(
        ed: Seq<Edge>,
        n: int,
        source: usize,
        dist: Seq<Option<u64>>,
        prev: Seq<Option<usize>>,
        i: int,
        x: ShortestPathToCritical,
    )
        requires
            0 <= i < n,
            source < n,
            dist.len() == n,
            prev.len() == n,
            dist[source as int] == Some(0u64),
            forall|w: int|
                0 <= w < n && (#[trigger] dist[w]) is Some ==> exists|pth: Seq<usize>|
                    is_path(ed, pth, source as int, w) && path_weight(ed, pth) == dist[w].unwrap(),
            forall|w: int, pth: Seq<usize>|
                0 <= w < n && #[trigger] is_path(ed, pth, source as int, w) && path_weight(ed, pth)
                    <= u64::MAX ==> dist[w] is Some && dist[w].unwrap() <= path_weight(ed, pth),
            prev[source as int] is None,
            forall|w: int|
                0 <= w < n && (#[trigger] prev[w]) is Some ==> {
                    &&& prev[w].unwrap() < n
                    &&& dist[w] is Some
                    &&& dist[prev[w].unwrap() as int] is Some
                    &&& exists|e: int|
                        0 <= e < ed.len() && ed[e].node1 == prev[w].unwrap() && ed[e].node2 == w
                            && dist[w].unwrap() == dist[prev[w].unwrap() as int].unwrap()
                            + ed[e].journey_time
                },
            forall|w: int|
                0 <= w < n && w != source && (#[trigger] dist[w]) is Some ==> prev[w] is Some,
            exists|rank: Seq<int>| prev_acyclic(prev, rank),
            x.destination == source,
            x.path@ == prev,
            dist[i] is Some,
            x.distance_to_destination == dist[i].unwrap(),
        ensures
            entry_exact(ed, n, i, x),
    {
        assert(is_min_dist(ed, source as int, i, x.distance_to_destination as int));
        assert forall|v: int|
            #![trigger x.path@[v]]
            0 <= v < n && v != x.destination && (exists|pth: Seq<usize>|
                #[trigger] is_path(ed, pth, x.destination as int, v) && path_weight(ed, pth)
                    <= u64::MAX) implies x.path@[v] is Some by {
            assert(dist[v] is Some);
        }
        assert forall|v: int|
            0 <= v < n && (#[trigger] x.path@[v]) is Some implies x.path@[v].unwrap() < n && exists|
            e: int,
            du: int,
            dv: int,
        |
            {
                &&& 0 <= e < ed.len()
                &&& ed[e].node1 == x.path@[v].unwrap()
                &&& ed[e].node2 == v
                &&& is_min_dist(ed, x.destination as int, x.path@[v].unwrap() as int, du)
                &&& is_min_dist(ed, x.destination as int, v, dv)
                &&& dv == du + ed[e].journey_time
            } by {
            let u = x.path@[v].unwrap();
            let e = choose|e: int|
                0 <= e < ed.len() && ed[e].node1 == prev[v].unwrap() && ed[e].node2 == v && dist[
                    v
                ].unwrap() == dist[prev[v].unwrap() as int].unwrap() + ed[e].journey_time;
            let du = dist[u as int].unwrap() as int;
            let dv = dist[v].unwrap() as int;
            assert(is_min_dist(ed, source as int, u as int, du));
            assert(is_min_dist(ed, source as int, v, dv));
            assert(0 <= e < ed.len() && ed[e].node1 == u && ed[e].node2 == v && dv == du + ed[
                e
            ].journey_time);
        }
    }

    /// Run one shortest-path computation from `source` and attach its
    /// outcome to every critical station it reaches (other than `source`
    /// itself): the station gains one route-table record holding the exact
    /// shortest distance from `source`, the identity of `source`, and the
    /// run's full predecessor map.
    #[verifier::rlimit(100)]
    fn attach_run(&mut self, source: usize)
        requires
            old(self).graph_wf(),
            source < old(self).node@.len(),
        ensures
            *final(self) == (Network { node: final(self).node, ..*old(self) }),
            final(self).node@.len() == old(self).node@.len(),
            final(self).graph_wf(),
            forall|i: int|
                #![trigger old(self).node@[i]]
                0 <= i < old(self).node@.len() ==> {
                    let spc0 = old(self).node@[i].shortest_path_to_other_critical_nodes@;
                    let spc1 = final(self).node@[i].shortest_path_to_other_critical_nodes@;
                    &&& final(self).node@[i] == (Node {
                        shortest_path_to_other_critical_nodes:
                            final(self).node@[i].shortest_path_to_other_critical_nodes,
                        ..old(self).node@[i]
                    })
                    &&& spc1.subrange(0, spc0.len() as int) == spc0
                    &&& spc0.len() <= spc1.len() <= spc0.len() + 1
                    &&& (forall|j: int|
                        spc0.len() <= j < spc1.len() ==> entry_exact(
                            old(self).edge@,
                            old(self).node@.len() as int,
                            i,
                            #[trigger] spc1[j],
                        ) && spc1[j].destination == source)
                    &&& ((old(self).node@[i].critical && i != source && exists|pth: Seq<usize>|
                        #[trigger] is_path(old(self).edge@, pth, source as int, i) && path_weight(
                            old(self).edge@,
                            pth,
                        ) <= u64::MAX) <==> spc1.len() == spc0.len() + 1)
                },
    {
        let r = self.dijkstra(source);
        let dist = r.0;
        let prev = r.1;
        let n = self.node.len();
        let ghost ed = self.edge@;
        let ghost nodes0 = self.node@;
        let mut v: usize = 0;
        while v < n
            invariant
                v <= n,
                n == self.node@.len(),
                n == nodes0.len(),
                source < n,
                ed == self.edge@,
                dist@.len() == n,
                prev@.len() == n,
                dist@[source as int] == Some(0u64),
                forall|w: int|
                    0 <= w < n && (#[trigger] dist@[w]) is Some ==> exists|pth: Seq<usize>|
                        is_path(ed, pth, source as int, w) && path_weight(ed, pth) == dist@[
                            w
                        ].unwrap(),
                forall|w: int, pth: Seq<usize>|
                    0 <= w < n && #[trigger] is_path(ed, pth, source as int, w) && path_weight(
                        ed,
                        pth,
                    ) <= u64::MAX ==> dist@[w] is Some && dist@[w].unwrap() <= path_weight(
                        ed,
                        pth,
                    ),
                prev@[source as int] is None,
                forall|w: int|
                    0 <= w < n && (#[trigger] prev@[w]) is Some ==> {
                        &&& prev@[w].unwrap() < n
                        &&& dist@[w] is Some
                        &&& dist@[prev@[w].unwrap() as int] is Some
                        &&& exists|e: int|
                            0 <= e < ed.len() && ed[e].node1 == prev@[w].unwrap() && ed[e].node2
                                == w && dist@[w].unwrap() == dist@[prev@[w].unwrap() as int].unwrap()
                                + ed[e].journey_time
                    },
                forall|w: int|
                    0 <= w < n && w != source && (#[trigger] dist@[w]) is Some ==> prev@[w] is Some,
                exists|rank: Seq<int>| prev_acyclic(prev@, rank),
                *self == (Network { node: self.node, ..*old(self) }),
                forall|i: int| v <= i < n ==> self.node@[i] == nodes0[i],
                forall|i: int|
                    #![trigger self.node@[i]]
                    0 <= i < v ==> {
                        let spc0 = nodes0[i].shortest_path_to_other_critical_nodes@;
                        let spc1 = self.node@[i].shortest_path_to_other_critical_nodes@;
                        &&& self.node@[i] == (Node {
                            shortest_path_to_other_critical_nodes: self.node@[i].shortest_path_to_other_critical_nodes,
                            ..nodes0[i]
                        })
                        &&& if nodes0[i].critical && i != source && dist@[i] is Some {
                            &&& spc1.len() == spc0.len() + 1
                            &&& spc1.subrange(0, spc0.len() as int) == spc0
                            &&& spc1.last().destination == source
                            &&& spc1.last().distance_to_destination == dist@[i].unwrap()
                            &&& spc1.last().path@ == prev@
                        } else {
                            spc1 == spc0
                        }
                    },
            decreases n - v,
        {
            let is_crit = self.node[v].is_critical();
            let mut attach = false;
            let mut dv: u64 = 0;
            match dist[v] {
                Some(d0) => {
                    if is_crit && v != source {
                        attach = true;
                        dv = d0;
                    }
                },
                None => {},
            }
            if attach {
                let pm = crate::node::copy_path(&prev);
                let nd = set_at_node(&mut self.node, v);
                nd.add_shortest_path(dv, source, pm);
                proof {
                    assert(self.node@[v as int].shortest_path_to_other_critical_nodes@.subrange(
                        0,
                        nodes0[v as int].shortest_path_to_other_critical_nodes@.len() as int,
                    ) =~= nodes0[v as int].shortest_path_to_other_critical_nodes@);
                }
            }
            v += 1;
        }
        proof {
            assert(edges_wf(self.edge@, n as int));
            assert forall|i: int| 0 <= i < n implies #[trigger] node_edges_wf(
                self.node@[i],
                ed.len() as int,
            ) by {
                assert(node_edges_wf(nodes0[i], ed.len() as int));
                assert(self.node@[i].edge@ == nodes0[i].edge@);
            }
            assert forall|i: int, kk: int|
                0 <= i < n && 0 <= kk < self.node@[i].edge@.len() implies self.edge@[#[trigger] self.node@[i].edge@[kk] as int].node1
                == i by {
                assert(self.node@[i].edge@ == nodes0[i].edge@);
            }
            assert forall|e: int|
                0 <= e < self.edge@.len() implies self.node@[#[trigger] self.edge@[e].node1 as int].edge@.contains(
                e as usize,
            ) by {
                assert(self.node@[self.edge@[e].node1 as int].edge@ == nodes0[self.edge@[e].node1 as int].edge@);
            }
            assert forall|i: int|
                #![trigger self.node@[i]]
                0 <= i < n implies {
                let spc0 = nodes0[i].shortest_path_to_other_critical_nodes@;
                let spc1 = self.node@[i].shortest_path_to_other_critical_nodes@;
                &&& spc1.subrange(0, spc0.len() as int) == spc0
                &&& spc0.len() <= spc1.len() <= spc0.len() + 1
                &&& (forall|j: int|
                    spc0.len() <= j < spc1.len() ==> entry_exact(ed, n as int, i, #[trigger] spc1[j])
                        && spc1[j].destination == source)
                &&& ((nodes0[i].critical && i != source && exists|pth: Seq<usize>|
                    #[trigger] is_path(ed, pth, source as int, i) && path_weight(ed, pth)
                        <= u64::MAX) <==> spc1.len() == spc0.len() + 1)
            } by {
                let spc0 = nodes0[i].shortest_path_to_other_critical_nodes@;
                let spc1 = self.node@[i].shortest_path_to_other_critical_nodes@;
                if nodes0[i].critical && i != source && dist@[i] is Some {
                    assert(spc1.len() == spc0.len() + 1);
                    Self::lemma_entry_from_run(
                        ed,
                        n as int,
                        source,
                        dist@,
                        prev@,
                        i,
                        spc1[spc0.len() as int],
                    );
                    assert(entry_exact(ed, n as int, i, spc1[spc0.len() as int]));
                } else {
                    assert(spc1 =~= spc1.subrange(0, spc0.len() as int));
                    if spc1.len() == spc0.len() + 1 {
                        assert(false);
                    }
                    if nodes0[i].critical && i != source && exists|pth: Seq<usize>|
                        #[trigger] is_path(ed, pth, source as int, i) && path_weight(ed, pth)
                            <= u64::MAX {
                        assert(dist@[i] is Some);
                        assert(false);
                    }
                }
            }
        }
    }

    /// Precompute every train's routing data: for each package, run the
    /// shortest-path search once from its drop-off station and once from its
    /// pickup station, attach each run's outcome to every critical station
    /// it reaches, and finally rank every station's table ascending by
    /// distance (stable on ties). Afterwards each critical station reachable
    /// from a package endpoint holds a record of the exact shortest distance
    /// from that endpoint, ranked nearest-first.
    pub fn calculate_shortest_distance_between_packages(&mut self)
        requires
            old(self).graph_wf(),
            forall|k: int|
                0 <= k < old(self).package@.len() ==> (#[trigger] old(self).package@[k]).start
                    < old(self).node@.len() && old(self).package@[k].end < old(self).node@.len(),
        ensures
            *final(self) == (Network { node: final(self).node, ..*old(self) }),
            final(self).node@.len() == old(self).node@.len(),
            forall|i: int|
                #![trigger final(self).node@[i]]
                0 <= i < old(self).node@.len() ==> {
                    &&& final(self).node@[i] == (Node {
                        shortest_path_to_other_critical_nodes:
                            final(self).node@[i].shortest_path_to_other_critical_nodes,
                        ..old(self).node@[i]
                    })
                    &&& sorted_by_distance(
                        final(self).node@[i].shortest_path_to_other_critical_nodes@,
                    )
                },
            (forall|i: int, j: int|
                0 <= i < old(self).node@.len() && 0 <= j < old(self).node@[i].shortest_path_to_other_critical_nodes@.len() ==> entry_exact(
                    old(self).edge@,
                    old(self).node@.len() as int,
                    i,
                    #[trigger] old(self).node@[i].shortest_path_to_other_critical_nodes@[j],
                )) ==> (forall|i: int, j: int|
                0 <= i < old(self).node@.len() && 0 <= j < final(self).node@[i].shortest_path_to_other_critical_nodes@.len() ==> entry_exact(
                    old(self).edge@,
                    old(self).node@.len() as int,
                    i,
                    #[trigger] final(self).node@[i].shortest_path_to_other_critical_nodes@[j],
                )),
            // Each table is exactly the canonical stable sort of the table
            // the runs built: the old records extended by exact new ones,
            // permuted by distance with ties keeping attachment order.
            forall|i: int|
                #![trigger old(self).node@[i].shortest_path_to_other_critical_nodes]
                0 <= i < old(self).node@.len() ==> table_from_runs(
                    old(self).edge@,
                    old(self).node@.len() as int,
                    i,
                    old(self).node@[i].shortest_path_to_other_critical_nodes@,
                    final(self).node@[i].shortest_path_to_other_critical_nodes@,
                ),
            forall|k: int, i: int|
                #![trigger old(self).package@[k], old(self).node@[i]]
                0 <= k < old(self).package@.len() && 0 <= i < old(self).node@.len() ==> {
                    &&& ((old(self).node@[i].critical && i != old(self).package@[k].end && exists|
                        pth: Seq<usize>,
                    |
                        #[trigger] is_path(
                            old(self).edge@,
                            pth,
                            old(self).package@[k].end as int,
                            i,
                        ) && path_weight(old(self).edge@, pth) <= u64::MAX) ==> has_entry_for(
                        final(self).node@[i].shortest_path_to_other_critical_nodes@,
                        old(self).package@[k].end,
                    ))
                    &&& ((old(self).node@[i].critical && i != old(self).package@[k].start && exists|
                        pth: Seq<usize>,
                    |
                        #[trigger] is_path(
                            old(self).edge@,
                            pth,
                            old(self).package@[k].start as int,
                            i,
                        ) && path_weight(old(self).edge@, pth) <= u64::MAX) ==> has_entry_for(
                        final(self).node@[i].shortest_path_to_other_critical_nodes@,
                        old(self).package@[k].start,
                    ))
                },
    {
        let n_pkg = self.package.len();
        let n = self.node.len();
        let ghost net0 = *old(self);
        let ghost ed = self.edge@;
        let mut k: usize = 0;
        while k < n_pkg
            invariant
                k <= n_pkg,
                n_pkg == self.package@.len(),
                n == self.node@.len(),
                n == net0.node@.len(),
                ed == net0.edge@,
                *self == (Network { node: self.node, ..net0 }),
                self.graph_wf(),
                forall|kk: int|
                    0 <= kk < n_pkg ==> (#[trigger] self.package@[kk]).start < n
                        && self.package@[kk].end < n,
                forall|i: int|
                    #![trigger self.node@[i]]
                    0 <= i < n ==> {
                        let spc0 = net0.node@[i].shortest_path_to_other_critical_nodes@;
                        let spc1 = self.node@[i].shortest_path_to_other_critical_nodes@;
                        &&& self.node@[i] == (Node {
                            shortest_path_to_other_critical_nodes: self.node@[i].shortest_path_to_other_critical_nodes,
                            ..net0.node@[i]
                        })
                        &&& spc1.len() >= spc0.len()
                        &&& spc1.subrange(0, spc0.len() as int) == spc0
                        &&& (forall|j: int|
                            spc0.len() <= j < spc1.len() ==> entry_exact(
                                ed,
                                n as int,
                                i,
                                #[trigger] spc1[j],
                            ))
                    },
                forall|kk: int, i: int|
                    #![trigger net0.package@[kk], net0.node@[i]]
                    0 <= kk < k && 0 <= i < n ==> {
                        &&& ((net0.node@[i].critical && i != net0.package@[kk].end && exists|
                            pth: Seq<usize>,
                        |
                            #[trigger] is_path(ed, pth, net0.package@[kk].end as int, i)
                                && path_weight(ed, pth) <= u64::MAX) ==> has_entry_for(
                            self.node@[i].shortest_path_to_other_critical_nodes@,
                            net0.package@[kk].end,
                        ))
                        &&& ((net0.node@[i].critical && i != net0.package@[kk].start && exists|
                            pth: Seq<usize>,
                        |
                            #[trigger] is_path(ed, pth, net0.package@[kk].start as int, i)
                                && path_weight(ed, pth) <= u64::MAX) ==> has_entry_for(
                            self.node@[i].shortest_path_to_other_critical_nodes@,
                            net0.package@[kk].start,
                        ))
                    },
            decreases n_pkg - k,
        {
            let ghost before_end = self.node@;
            let e_node = self.package[k].get_end_node();
            self.attach_run(e_node);
            let ghost before_start = self.node@;
            let s_node = self.package[k].get_start_node();
            self.attach_run(s_node);
            proof {
                lemma_spc_prefix_chain(net0.node@, before_end, before_end, before_start);
                lemma_spc_prefix_chain(net0.node@, before_start, before_start, self.node@);
                // Frame: both passes touched nothing but the route tables.
                assert forall|i: int|
                    #![trigger self.node@[i]]
                    0 <= i < n implies self.node@[i] == (Node {
                    shortest_path_to_other_critical_nodes: self.node@[i].shortest_path_to_other_critical_nodes,
                    ..net0.node@[i]
                }) by {
                    assert(before_end[i] == (Node {
                        shortest_path_to_other_critical_nodes: before_end[i].shortest_path_to_other_critical_nodes,
                        ..net0.node@[i]
                    }));
                    assert(before_start[i] == (Node {
                        shortest_path_to_other_critical_nodes: before_start[i].shortest_path_to_other_critical_nodes,
                        ..before_end[i]
                    }));
                    assert(self.node@[i] == (Node {
                        shortest_path_to_other_critical_nodes: self.node@[i].shortest_path_to_other_critical_nodes,
                        ..before_start[i]
                    }));
                }
                // Every entry beyond a station's original table is exact,
                // whichever of the runs so far appended it.
                assert forall|i: int, j: int|
                    0 <= i < n && net0.node@[i].shortest_path_to_other_critical_nodes@.len() <= j
                        < self.node@[i].shortest_path_to_other_critical_nodes@.len() implies
                entry_exact(
                    ed,
                    n as int,
                    i,
                    #[trigger] self.node@[i].shortest_path_to_other_critical_nodes@[j],
                ) by {
                    let a0 = before_end[i].shortest_path_to_other_critical_nodes@;
                    let a = before_start[i].shortest_path_to_other_critical_nodes@;
                    let b = self.node@[i].shortest_path_to_other_critical_nodes@;
                    if j < a.len() {
                        assert(b.subrange(0, a.len() as int) == a);
                        assert(b[j] == a[j]);
                        if j < a0.len() {
                            assert(a.subrange(0, a0.len() as int) == a0);
                            assert(a[j] == a0[j]);
                            assert(entry_exact(ed, n as int, i, a0[j]));
                        } else {
                            assert(entry_exact(ed, n as int, i, a[j]));
                        }
                    } else {
                        assert(entry_exact(ed, n as int, i, b[j]));
                    }
                }
                // Earlier packages keep their entries; this package just got
                // its own.
                assert forall|kk: int, i: int|
                    #![trigger net0.package@[kk], net0.node@[i]]
                    0 <= kk < k + 1 && 0 <= i < n implies {
                    &&& ((net0.node@[i].critical && i != net0.package@[kk].end && exists|
                        pth: Seq<usize>,
                    |
                        #[trigger] is_path(ed, pth, net0.package@[kk].end as int, i)
                            && path_weight(ed, pth) <= u64::MAX) ==> has_entry_for(
                        self.node@[i].shortest_path_to_other_critical_nodes@,
                        net0.package@[kk].end,
                    ))
                    &&& ((net0.node@[i].critical && i != net0.package@[kk].start && exists|
                        pth: Seq<usize>,
                    |
                        #[trigger] is_path(ed, pth, net0.package@[kk].start as int, i)
                            && path_weight(ed, pth) <= u64::MAX) ==> has_entry_for(
                        self.node@[i].shortest_path_to_other_critical_nodes@,
                        net0.package@[kk].start,
                    ))
                } by {
                    let a0 = before_end[i].shortest_path_to_other_critical_nodes@;
                    let a = before_start[i].shortest_path_to_other_critical_nodes@;
                    let b = self.node@[i].shortest_path_to_other_critical_nodes@;
                    if kk < k {
                        assert(b.subrange(0, a0.len() as int) =~= b.subrange(
                            0,
                            a.len() as int,
                        ).subrange(0, a0.len() as int));
                        lemma_entry_for_prefix(a0, b, net0.package@[kk].end);
                        lemma_entry_for_prefix(a0, b, net0.package@[kk].start);
                    } else {
                        assert(before_end[i].critical == net0.node@[i].critical);
                        assert(before_start[i].critical == net0.node@[i].critical);
                        if net0.node@[i].critical && i != net0.package@[kk].end && exists|
                            pth: Seq<usize>,
                        |
                            #[trigger] is_path(ed, pth, net0.package@[kk].end as int, i)
                                && path_weight(ed, pth) <= u64::MAX {
                            assert(a.len() == a0.len() + 1);
                            assert(a[a0.len() as int].destination == net0.package@[kk].end);
                            assert(has_entry_for(a, net0.package@[kk].end));
                            lemma_entry_for_prefix(a, b, net0.package@[kk].end);
                        }
                        if net0.node@[i].critical && i != net0.package@[kk].start && exists|
                            pth: Seq<usize>,
                        |
                            #[trigger] is_path(ed, pth, net0.package@[kk].start as int, i)
                                && path_weight(ed, pth) <= u64::MAX {
                            assert(b.len() == a.len() + 1);
                            assert(b[a.len() as int].destination == net0.package@[kk].start);
                            assert(has_entry_for(b, net0.package@[kk].start));
                        }
                    }
                }
            }
            k += 1;
        }
        // Rank every station's table ascending by distance, stable on ties.
        let ghost presort = self.node@;
        let mut i: usize = 0;
        while i < n
            invariant
                i <= n,
                n == self.node@.len(),
                n == presort.len(),
                n == net0.node@.len(),
                *self == (Network { node: self.node, ..net0 }),
                forall|ii: int| i <= ii < n ==> self.node@[ii] == presort[ii],
                forall|ii: int|
                    #![trigger self.node@[ii]]
                    0 <= ii < i ==> {
                        &&& self.node@[ii] == (Node {
                            shortest_path_to_other_critical_nodes: self.node@[ii].shortest_path_to_other_critical_nodes,
                            ..presort[ii]
                        })
                        &&& self.node@[ii].shortest_path_to_other_critical_nodes@
                            == crate::node::stable_sort_by_distance(
                            presort[ii].shortest_path_to_other_critical_nodes@,
                        )
                        &&& sorted_by_distance(
                            self.node@[ii].shortest_path_to_other_critical_nodes@,
                        )
                        &&& (forall|x: ShortestPathToCritical|
                            self.node@[ii].shortest_path_to_other_critical_nodes@.contains(x)
                                <==> #[trigger] presort[ii].shortest_path_to_other_critical_nodes@.contains(
                                x,
                            ))
                    },
            decreases n - i,
        {
            let nd = set_at_node(&mut self.node, i);
            nd.sort_shortest_dest();
            proof {
                broadcast use vstd::seq_lib::group_to_multiset_ensures;

                crate::node::lemma_stable_sort_by_distance(
                    presort[i as int].shortest_path_to_other_critical_nodes@,
                );
                let a = presort[i as int].shortest_path_to_other_critical_nodes@;
                let b = self.node@[i as int].shortest_path_to_other_critical_nodes@;
                assert(b.to_multiset() == a.to_multiset());
                assert forall|x: ShortestPathToCritical| b.contains(x) <==> #[trigger] a.contains(
                    x,
                ) by {
                    assert(b.contains(x) <==> b.to_multiset().count(x) > 0);
                    assert(a.contains(x) <==> a.to_multiset().count(x) > 0);
                }
            }
            i += 1;
        }
        proof {
            assert forall|i: int|
                #![trigger old(self).node@[i].shortest_path_to_other_critical_nodes]
                0 <= i < n implies table_from_runs(
                ed,
                n as int,
                i,
                net0.node@[i].shortest_path_to_other_critical_nodes@,
                self.node@[i].shortest_path_to_other_critical_nodes@,
            ) by {
                let pre = presort[i].shortest_path_to_other_critical_nodes@;
                assert(pre.subrange(
                    0,
                    net0.node@[i].shortest_path_to_other_critical_nodes@.len() as int,
                ) == net0.node@[i].shortest_path_to_other_critical_nodes@);
                assert forall|j: int|
                    net0.node@[i].shortest_path_to_other_critical_nodes@.len() <= j
                        < pre.len() implies entry_exact(ed, n as int, i, #[trigger] pre[j]) by {}
                assert(self.node@[i].shortest_path_to_other_critical_nodes@
                    == crate::node::stable_sort_by_distance(pre));
            }
            assert forall|kk: int, i: int|
                #![trigger net0.package@[kk], net0.node@[i]]
                0 <= kk < n_pkg && 0 <= i < n implies {
                &&& ((net0.node@[i].critical && i != net0.package@[kk].end && exists|
                    pth: Seq<usize>,
                |
                    #[trigger] is_path(ed, pth, net0.package@[kk].end as int, i) && path_weight(
                        ed,
                        pth,
                    ) <= u64::MAX) ==> has_entry_for(
                    self.node@[i].shortest_path_to_other_critical_nodes@,
                    net0.package@[kk].end,
                ))
                &&& ((net0.node@[i].critical && i != net0.package@[kk].start && exists|
                    pth: Seq<usize>,
                |
                    #[trigger] is_path(ed, pth, net0.package@[kk].start as int, i) && path_weight(
                        ed,
                        pth,
                    ) <= u64::MAX) ==> has_entry_for(
                    self.node@[i].shortest_path_to_other_critical_nodes@,
                    net0.package@[kk].start,
                ))
            } by {
                lemma_entry_for_transfers(
                    presort[i].shortest_path_to_other_critical_nodes@,
                    self.node@[i].shortest_path_to_other_critical_nodes@,
                    net0.package@[kk].end,
                );
                lemma_entry_for_transfers(
                    presort[i].shortest_path_to_other_critical_nodes@,
                    self.node@[i].shortest_path_to_other_critical_nodes@,
                    net0.package@[kk].start,
                );
            }
            assert forall|i: int, j: int|
                (forall|i2: int, j2: int|
                    0 <= i2 < n && 0 <= j2 < net0.node@[
                        i2
                    ].shortest_path_to_other_critical_nodes@.len() ==> entry_exact(
                        ed,
                        n as int,
                        i2,
                        #[trigger] net0.node@[i2].shortest_path_to_other_critical_nodes@[j2],
                    )) && 0 <= i < n && 0 <= j < self.node@[
                    i
                ].shortest_path_to_other_critical_nodes@.len() implies entry_exact(
                ed,
                n as int,
                i,
                #[trigger] self.node@[i].shortest_path_to_other_critical_nodes@[j],
            ) by {
                let x = self.node@[i].shortest_path_to_other_critical_nodes@[j];
                assert(self.node@[i].shortest_path_to_other_critical_nodes@.contains(x));
                assert(presort[i].shortest_path_to_other_critical_nodes@.contains(x));
                let jj = choose|jj: int|
                    0 <= jj < presort[i].shortest_path_to_other_critical_nodes@.len() && presort[
                        i
                    ].shortest_path_to_other_critical_nodes@[jj] == x;
                let spc0 = net0.node@[i].shortest_path_to_other_critical_nodes@;
                if jj < spc0.len() {
                    assert(presort[i].shortest_path_to_other_critical_nodes@[jj] == spc0[jj]);
                }
            }
        }
    }

    /// Whether every registered package has been delivered.
    pub fn has_all_package_delivered(&self) -> (r: bool)
        ensures
            r == forall|k: int| 0 <= k < self.package@.len() ==> (#[trigger] self.package@[k]).arrived,
    {
        let cnt = self.package.len();
        let mut i: usize = 0;
        while i < cnt
            invariant
                i <= cnt,
                cnt == self.package@.len(),
                forall|k: int| 0 <= k < i ==> (#[trigger] self.package@[k]).arrived,
            decreases cnt - i,
        {
            if !self.package[i].get_arrived() {
                return false;
            }
            i += 1;
        }
        true
    }

    /// Tick the clock until every package has been delivered: each iteration
    /// ticks every train once (a stopped train is a no-op), then advances
    /// time by one. When every train has stopped while packages remain — or
    /// the clock cannot advance any further — the configuration is
    /// unservable and the driver fails with `UnreachableDelivery` rather
    /// than spin forever. A train whose route names a hop no rail reaches
    /// aborts the run with `EdgeNotFound`.
    pub fn simulate(&mut self) -> (r: Result<(), SimError>)
        requires
            old(self).wf(),
        ensures
            final(self).wf(),
            final(self).edge == old(self).edge,
            final(self).node@.len() == old(self).node@.len(),
            final(self).package@.len() == old(self).package@.len(),
            final(self).train@.len() == old(self).train@.len(),
            forall|i: int|
                0 <= i < old(self).node@.len() ==> final(self).node@[i].name == old(self).node@[i].name,
            forall|k: int|
                0 <= k < old(self).train@.len() ==> final(self).train@[k].name == old(self).train@[k].name && final(self).train@[k].capacity == old(self).train@[k].capacity,
            forall|p: int|
                #![trigger final(self).package@[p]]
                0 <= p < old(self).package@.len() ==> {
                    &&& final(self).package@[p].name == old(self).package@[p].name
                    &&& final(self).package@[p].weight == old(self).package@[p].weight
                    &&& final(self).package@[p].start == old(self).package@[p].start
                    &&& final(self).package@[p].end == old(self).package@[p].end
                    &&& (old(self).package@[p].arrived ==> final(self).package@[p].arrived)
                },
            match r {
                Ok(()) => forall|p: int|
                    0 <= p < final(self).package@.len() ==> (#[trigger] final(self).package@[p]).arrived,
                Err(e) => {
                    &&& (e == SimError::UnreachableDelivery || e == SimError::EdgeNotFound)
                    &&& (e == SimError::UnreachableDelivery ==> {
                        &&& !(forall|p: int|
                            0 <= p < final(self).package@.len() ==> (#[trigger] final(self).package@[p]).arrived)
                        &&& ((forall|k: int|
                            0 <= k < final(self).train@.len() ==> (#[trigger] final(self).train@[k]).end_trip) || final(self).time == u64::MAX)
                    })
                },
            },
            ((forall|k: int|
                0 <= k < old(self).train@.len() ==> crate::train::history_wf(
                    #[trigger] old(self).train@[k],
                )) && (forall|i: int|
                0 <= i < old(self).node@.len() ==> (#[trigger] old(self).node@[i].name)@.len() > 0))
                ==> forall|k: int|
                0 <= k < final(self).train@.len() ==> crate::train::history_wf(
                    #[trigger] final(self).train@[k],
                ),
            forall|i: int|
                0 <= i < old(self).node@.len() ==> final(self).node@[i].shortest_path_to_other_critical_nodes@
                    == old(self).node@[i].shortest_path_to_other_critical_nodes@,
            // A run can only abort on a broken route: some train is left
            // standing at a station whose next hop no rail reaches.
            r == Err::<(), SimError>(SimError::EdgeNotFound) ==> exists|k: int|
                0 <= k < final(self).train@.len() && crate::train::train_stuck(
                    #[trigger] final(self).train@[k],
                    final(self).node@,
                    final(self).edge@,
                ),
            // When every adopted route and every route-table map steps only
            // along existing rails, the run never aborts: the only failure
            // left is the unservable configuration.
            ((forall|k: int|
                0 <= k < old(self).train@.len() ==> crate::node::hops_ok(
                    (#[trigger] old(self).train@[k]).route@,
                    old(self).edge@,
                )) && crate::node::tables_ok(old(self).node@, old(self).edge@)) ==> !(r == Err::<
                (),
                SimError,
            >(SimError::EdgeNotFound)),
    {
        let ghost net0 = *old(self);
        let ghost histp = (forall|k: int|
            0 <= k < net0.train@.len() ==> crate::train::history_wf(#[trigger] net0.train@[k]))
            && (forall|i: int|
            0 <= i < net0.node@.len() ==> (#[trigger] net0.node@[i].name)@.len() > 0);
        let ghost routes_p = (forall|k: int|
            0 <= k < net0.train@.len() ==> crate::node::hops_ok(
                (#[trigger] net0.train@[k]).route@,
                net0.edge@,
            )) && crate::node::tables_ok(net0.node@, net0.edge@);
        while !self.has_all_package_delivered()
            invariant
                net0 == *old(self),
                self.wf(),
                self.edge == net0.edge,
                self.node@.len() == net0.node@.len(),
                self.package@.len() == net0.package@.len(),
                self.train@.len() == net0.train@.len(),
                forall|i: int|
                    0 <= i < net0.node@.len() ==> self.node@[i].name == net0.node@[i].name,
                forall|k: int|
                    0 <= k < net0.train@.len() ==> self.train@[k].name == net0.train@[k].name
                        && self.train@[k].capacity == net0.train@[k].capacity,
                forall|p: int|
                    #![trigger self.package@[p]]
                    0 <= p < net0.package@.len() ==> {
                        &&& self.package@[p].name == net0.package@[p].name
                        &&& self.package@[p].weight == net0.package@[p].weight
                        &&& self.package@[p].start == net0.package@[p].start
                        &&& self.package@[p].end == net0.package@[p].end
                        &&& (net0.package@[p].arrived ==> self.package@[p].arrived)
                    },
                histp == ((forall|k: int|
                    0 <= k < net0.train@.len() ==> crate::train::history_wf(
                        #[trigger] net0.train@[k],
                    )) && (forall|i: int|
                    0 <= i < net0.node@.len() ==> (#[trigger] net0.node@[i].name)@.len() > 0)),
                histp ==> forall|k: int|
                    0 <= k < self.train@.len() ==> crate::train::history_wf(
                        #[trigger] self.train@[k],
                    ),
                forall|i: int|
                    0 <= i < net0.node@.len() ==> self.node@[i].shortest_path_to_other_critical_nodes@
                        == net0.node@[i].shortest_path_to_other_critical_nodes@,
                routes_p == ((forall|k: int|
                    0 <= k < net0.train@.len() ==> crate::node::hops_ok(
                        (#[trigger] net0.train@[k]).route@,
                        net0.edge@,
                    )) && crate::node::tables_ok(net0.node@, net0.edge@)),
                routes_p ==> ((forall|k: int|
                    0 <= k < self.train@.len() ==> crate::node::hops_ok(
                        (#[trigger] self.train@[k]).route@,
                        self.edge@,
                    )) && crate::node::tables_ok(self.node@, self.edge@)),
            decreases u64::MAX - self.time,
        {
            let n_tr = self.train.len();
            let ghost titer = self.time;
            // A full iteration with every train already stopped would make
            // no progress at all: the remaining packages are unservable.
            let mut any_active = false;
            let mut k: usize = 0;
            while k < n_tr
                invariant
                    k <= n_tr,
                    n_tr == self.train@.len(),
                    net0 == *old(self),
                    self.time == titer,
                    any_active == exists|kk: int|
                        0 <= kk < k && !(#[trigger] self.train@[kk]).end_trip,
                decreases n_tr - k,
            {
                if !self.train[k].end_trip {
                    any_active = true;
                }
                k += 1;
            }
            if !any_active {
                return Err(SimError::UnreachableDelivery);
            }
            // Tick every train once at the current time.
            let mut k: usize = 0;
            while k < n_tr
                invariant
                    k <= n_tr,
                    n_tr == self.train@.len(),
                    n_tr == net0.train@.len(),
                    net0 == *old(self),
                    self.time == titer,
                    histp == ((forall|kk: int|
                        0 <= kk < net0.train@.len() ==> crate::train::history_wf(
                            #[trigger] net0.train@[kk],
                        )) && (forall|i: int|
                        0 <= i < net0.node@.len() ==> (#[trigger] net0.node@[i].name)@.len() > 0)),
                    self.wf(),
                    self.edge == net0.edge,
                    self.node@.len() == net0.node@.len(),
                    self.package@.len() == net0.package@.len(),
                    forall|i: int|
                        0 <= i < net0.node@.len() ==> self.node@[i].name == net0.node@[i].name,
                    forall|kk: int|
                        0 <= kk < net0.train@.len() ==> self.train@[kk].name == net0.train@[kk].name
                            && self.train@[kk].capacity == net0.train@[kk].capacity,
                    forall|p: int|
                        #![trigger self.package@[p]]
                        0 <= p < net0.package@.len() ==> {
                            &&& self.package@[p].name == net0.package@[p].name
                            &&& self.package@[p].weight == net0.package@[p].weight
                            &&& self.package@[p].start == net0.package@[p].start
                            &&& self.package@[p].end == net0.package@[p].end
                            &&& (net0.package@[p].arrived ==> self.package@[p].arrived)
                        },
                    histp ==> forall|kk: int|
                        0 <= kk < self.train@.len() ==> crate::train::history_wf(
                            #[trigger] self.train@[kk],
                        ),
                    forall|i: int|
                        0 <= i < net0.node@.len() ==> self.node@[i].shortest_path_to_other_critical_nodes@
                            == net0.node@[i].shortest_path_to_other_critical_nodes@,
                    routes_p == ((forall|kk: int|
                        0 <= kk < net0.train@.len() ==> crate::node::hops_ok(
                            (#[trigger] net0.train@[kk]).route@,
                            net0.edge@,
                        )) && crate::node::tables_ok(net0.node@, net0.edge@)),
                    routes_p ==> ((forall|kk: int|
                        0 <= kk < self.train@.len() ==> crate::node::hops_ok(
                            (#[trigger] self.train@[kk]).route@,
                            self.edge@,
                        )) && crate::node::tables_ok(self.node@, self.edge@)),
                decreases n_tr - k,
            {
                let ghost pre_trains = self.train@;
                let ghost pre_pkgs = self.package@;
                let ghost pre_nodes = self.node@;
                proof {
                    assert(crate::node::edges_registered(self.node@, self.edge@)) by {
                        assert forall|e: int|
                            0 <= e < self.edge@.len() implies self.node@[#[trigger] self.edge@[e].node1 as int].edge@.contains(
                            e as usize,
                        ) by {}
                    }
                }
                let mut t = self.train.remove(k);
                let res = t.deliver(self.time, &mut self.node, &self.edge, &mut self.package);
                self.train.insert(k, t);
                proof {
                    assert forall|i: int|
                        0 <= i < net0.node@.len() implies self.node@[i].shortest_path_to_other_critical_nodes@
                        == net0.node@[i].shortest_path_to_other_critical_nodes@ by {
                        assert(pre_nodes[i].shortest_path_to_other_critical_nodes@
                            == net0.node@[i].shortest_path_to_other_critical_nodes@);
                    }
                    if routes_p {
                        assert(crate::node::tables_ok(self.node@, self.edge@)) by {
                            assert forall|i: int, j: int|
                                0 <= i < self.node@.len() && 0 <= j < self.node@[i].shortest_path_to_other_critical_nodes@.len() implies
                            #[trigger] crate::node::hops_ok(
                                self.node@[i].shortest_path_to_other_critical_nodes@[j].path@,
                                self.edge@,
                            ) by {
                                assert(self.node@[i].shortest_path_to_other_critical_nodes@
                                    == pre_nodes[i].shortest_path_to_other_critical_nodes@);
                                assert(crate::node::hops_ok(
                                    pre_nodes[i].shortest_path_to_other_critical_nodes@[j].path@,
                                    self.edge@,
                                ));
                            }
                        }
                        assert forall|kk: int|
                            0 <= kk < self.train@.len() implies crate::node::hops_ok(
                            (#[trigger] self.train@[kk]).route@,
                            self.edge@,
                        ) by {
                            if kk != k {
                                assert(self.train@[kk] == pre_trains[kk]);
                            }
                        }
                    }
                }
                proof {
                    assert(self.train@ =~= pre_trains.update(k as int, self.train@[k as int]));
                    // The other trains are untouched, and only delivered
                    // flags changed in the package arena, so their loads
                    // still add up.
                    assert forall|kk: int|
                        0 <= kk < self.train@.len() implies train_wf(
                        #[trigger] self.train@[kk],
                        self.node@.len() as int,
                        self.edge@.len() as int,
                        self.package@,
                    ) by {
                        if kk != k {
                            assert(self.train@[kk] == pre_trains[kk]);
                            assert(train_wf(
                                pre_trains[kk],
                                self.node@.len() as int,
                                self.edge@.len() as int,
                                pre_pkgs,
                            ));
                            crate::train::lemma_load_of_same_weights(
                                pre_pkgs,
                                self.package@,
                                pre_trains[kk].package@,
                            );
                        }
                    }
                    // The rails and every station's outgoing list are
                    // untouched, so the graph stays consistent.
                    assert forall|i: int, kk: int|
                        0 <= i < self.node@.len() && 0 <= kk < self.node@[i].edge@.len() implies
                    self.edge@[#[trigger] self.node@[i].edge@[kk] as int].node1 == i by {
                        assert(self.node@[i].edge@ == pre_nodes[i].edge@);
                    }
                    assert forall|e: int|
                        0 <= e < self.edge@.len() implies self.node@[#[trigger] self.edge@[e].node1 as int].edge@.contains(
                        e as usize,
                    ) by {
                        assert(self.node@[self.edge@[e].node1 as int].edge@ == pre_nodes[self.edge@[e].node1 as int].edge@);
                    }
                    if histp {
                        assert(crate::train::history_wf(pre_trains[k as int]));
                        assert forall|i: int|
                            0 <= i < pre_nodes.len() implies (#[trigger] pre_nodes[i].name)@.len()
                            > 0 by {
                            assert(pre_nodes[i].name == net0.node@[i].name);
                        }
                        assert(crate::train::history_wf(self.train@[k as int]));
                    }
                }
                match res {
                    Ok(()) => {},
                    Err(e) => {
                        proof {
                            assert(crate::train::train_stuck(
                                self.train@[k as int],
                                self.node@,
                                self.edge@,
                            ));
                            if routes_p {
                                assert(false);
                            }
                        }
                        return Err(e);
                    },
                }
                k += 1;
            }
            if self.time == u64::MAX {
                // The clock cannot advance: treat the rest as unservable.
                if self.has_all_package_delivered() {
                    return Ok(());
                }
                return Err(SimError::UnreachableDelivery);
            }
            self.time = self.time + 1;
        }
        Ok(())
    }

    /// The chronological movement log: every train's journey records,
    /// merged in train order and ranked ascending by time stamp, stable on
    /// ties. This is the sequence handed to the output layer.
    pub fn sorted_history(&self) -> (r: Vec<crate::train::History>)
        ensures
            crate::train::sorted_by_time(r@),
            crate::train::records_eq(
                r@,
                crate::train::stable_sort_by_time(all_history(self.train@)),
            ),
    {
        let n_tr = self.train.len();
        let mut all: Vec<crate::train::History> = Vec::new();
        proof {
            assert(self.train@.subrange(0, 0) =~= Seq::<Train>::empty());
        }
        let mut k: usize = 0;
        while k < n_tr
            invariant
                k <= n_tr,
                n_tr == self.train@.len(),
                crate::train::records_eq(
                    all@,
                    all_history(self.train@.subrange(0, k as int)),
                ),
            decreases n_tr - k,
        {
            let ghost prefix = self.train@.subrange(0, k as int);
            let h = self.train[k].get_history();
            let m = h.len();
            let ghost base = all@;
            let mut j: usize = 0;
            while j < m
                invariant
                    j <= m,
                    m == h@.len(),
                    h@ == self.train@[k as int].history@,
                    k < n_tr,
                    n_tr == self.train@.len(),
                    all@.len() == base.len() + j,
                    all@.subrange(0, base.len() as int) == base,
                    forall|i: int|
                        0 <= i < j ==> crate::train::record_eq(
                            #[trigger] all@[base.len() + i],
                            h@[i],
                        ),
                decreases m - j,
            {
                let ghost before = all@;
                all.push(h[j].clone());
                proof {
                    assert(all@.subrange(0, base.len() as int) =~= before.subrange(
                        0,
                        base.len() as int,
                    ));
                }
                j += 1;
            }
            proof {
                lemma_all_history_snoc(prefix, self.train@[k as int]);
                assert(prefix.push(self.train@[k as int]) =~= self.train@.subrange(0, k + 1));
                let target = all_history(prefix) + self.train@[k as int].history@;
                assert(all@.len() == target.len());
                assert forall|i: int| 0 <= i < all@.len() implies crate::train::record_eq(
                    all@[i],
                    target[i],
                ) by {
                    if i < base.len() {
                        assert(all@[i] == all@.subrange(0, base.len() as int)[i]);
                        assert(target[i] == all_history(prefix)[i]);
                    } else {
                        let ii = i - base.len();
                        assert(crate::train::record_eq(all@[base.len() + ii], h@[ii]));
                        assert(target[i] == self.train@[k as int].history@[ii]);
                    }
                }
                assert(crate::train::records_eq(
                    all@,
                    all_history(self.train@.subrange(0, k + 1)),
                ));
            }
            k += 1;
        }
        proof {
            assert(self.train@.subrange(0, n_tr as int) =~= self.train@);
            crate::train::lemma_stable_sort_by_time_congruent(all@, all_history(self.train@));
            crate::train::lemma_stable_sort_by_time(all@);
        }
        sort_history_vec(all)
    }

    /// Assemble a network from fully formed entities, in the order the
    /// loading layer hands them over: stations, rails, trains, packages.
    /// Entities must be fresh — stations with nothing registered yet, trains
    /// newly built and parked — and on success the assembled network is well
    /// formed, ready for the precomputation and the driver.
    pub fn build_network(
        nodes: Vec<Node>,
        edges: Vec<Edge>,
        trains: Vec<Train>,
        packages: Vec<Package>,
    ) -> (r: Result<Network, SimError>)
        requires
            forall|i: int|
                #![trigger nodes@[i]]
                0 <= i < nodes@.len() ==> {
                    &&& nodes@[i].edge@.len() == 0
                    &&& nodes@[i].pick_up_package@.len() == 0
                    &&& nodes@[i].drop_off_package@.len() == 0
                    &&& nodes@[i].shortest_path_to_other_critical_nodes@.len() == 0
                },
            forall|k: int|
                #![trigger trains@[k]]
                0 <= k < trains@.len() ==> {
                    &&& trains@[k].package@.len() == 0
                    &&& trains@[k].load == 0
                    &&& trains@[k].route@.len() == 0
                    &&& trains@[k].time == 0
                    &&& trains@[k].location is Node
                },
        ensures
            match r {
                Ok(net) => {
                    &&& net.wf()
                    &&& net.time == 0
                    &&& net.edge@ == edges@
                    &&& net.train@ == trains@
                    &&& net.package@ == packages@
                    &&& net.node@.len() == nodes@.len()
                    &&& forall|i: int|
                        0 <= i < nodes@.len() ==> net.node@[i].name == nodes@[i].name
                    &&& forall|k: int|
                        0 <= k < packages@.len() ==> (#[trigger] packages@[k]).start
                            < nodes@.len() && packages@[k].end < nodes@.len()
                    &&& forall|i: int|
                        0 <= i < nodes@.len() ==> crate::node::distinct_indices(
                            #[trigger] net.node@[i].pick_up_package@,
                        ) && crate::node::distinct_indices(net.node@[i].drop_off_package@)
                },
                Err(e) => {
                    &&& (e == SimError::DuplicateName || e == SimError::NotFound)
                    &&& (e == SimError::DuplicateName ==> build_has_duplicate(
                        nodes@,
                        edges@,
                        trains@,
                        packages@,
                    ))
                    &&& (e == SimError::NotFound ==> build_has_dangling_ref(
                        nodes@.len() as int,
                        edges@,
                        trains@,
                        packages@,
                    ))
                },
            },
            // Success is owed exactly on clean input: unique names
            // throughout and every reference resolving.
            (r is Ok) <==> (!build_has_duplicate(nodes@, edges@, trains@, packages@)
                && !build_has_dangling_ref(nodes@.len() as int, edges@, trains@, packages@)),
    {
        let mut net = Network::new();
        match net.initialize_node(nodes) {
            Ok(()) => {},
            Err(e) => {
                return Err(e);
            },
        }
        let ghost after_nodes = net;
        match net.initialize_edge(edges) {
            Ok(()) => {},
            Err(e) => {
                return Err(e);
            },
        }
        let ghost after_edges = net;
        proof {
            assert(net.graph_wf());
        }
        match net.initialize_train(trains) {
            Ok(()) => {},
            Err(e) => {
                return Err(e);
            },
        }
        let ghost after_trains = net;
        let n_pkg_exec = packages.len();
        match net.initialize_package(packages) {
            Ok(()) => {},
            Err(e) => {
                return Err(e);
            },
        }
        proof {
            let n = net.node@.len() as int;
            let n_e = net.edge@.len() as int;
            let n_p = net.package@.len() as int;
            assert(n_pkg_exec == net.package@.len());
            // Registering trains and packages touches no station's rails, so
            // the graph stays consistent.
            assert forall|i: int| 0 <= i < n implies (#[trigger] net.node@[i]).edge@
                == after_edges.node@[i].edge@ by {
                assert(after_trains.node@[i].edge@ == after_edges.node@[i].edge@);
            }
            assert(edges_wf(net.edge@, n));
            assert forall|i: int| 0 <= i < n implies #[trigger] node_edges_wf(net.node@[i], n_e) by {
                assert(node_edges_wf(after_edges.node@[i], n_e));
            }
            assert forall|i: int, k: int|
                0 <= i < n && 0 <= k < net.node@[i].edge@.len() implies net.edge@[#[trigger] net.node@[i].edge@[k] as int].node1
                == i by {
                assert(net.node@[i].edge@ == after_edges.node@[i].edge@);
            }
            assert forall|e: int|
                0 <= e < n_e implies net.node@[#[trigger] net.edge@[e].node1 as int].edge@.contains(
                e as usize,
            ) by {
                assert(net.node@[net.edge@[e].node1 as int].edge@ == after_edges.node@[net.edge@[e].node1 as int].edge@);
            }
            // Every package a station lists came from the registered arena.
            assert forall|i: int| 0 <= i < n implies #[trigger] node_refs_wf(net.node@[i], n, n_p) by {
                lemma_pickups_at_bounds(net.package@, i as usize, n_p);
                lemma_dropoffs_at_bounds(net.package@, i as usize, n_p);
                assert(net.node@[i].pick_up_package@ == after_trains.node@[i].pick_up_package@
                    + pickups_at(net.package@, i as usize, n_p));
                assert(after_trains.node@[i].pick_up_package@.len() == 0);
                assert forall|k: int|
                    0 <= k < net.node@[i].pick_up_package@.len() implies (
                #[trigger] net.node@[i].pick_up_package@[k]) < n_p by {
                    assert(net.node@[i].pick_up_package@[k] == pickups_at(
                        net.package@,
                        i as usize,
                        n_p,
                    )[k]);
                }
                assert forall|k: int|
                    0 <= k < net.node@[i].drop_off_package@.len() implies (
                #[trigger] net.node@[i].drop_off_package@[k]) < n_p by {
                    assert(net.node@[i].drop_off_package@[k] == dropoffs_at(
                        net.package@,
                        i as usize,
                        n_p,
                    )[k]);
                }
                assert(net.node@[i].shortest_path_to_other_critical_nodes@.len() == 0);
            }
            // A freshly built train carries nothing, so its zero load is the
            // weight of its (empty) cargo.
            assert forall|k: int| 0 <= k < net.train@.len() implies train_wf(
                #[trigger] net.train@[k],
                n,
                n_e,
                net.package@,
            ) by {
                assert(net.train@[k] == trains@[k]);
                assert(crate::train::load_of(net.package@, net.train@[k].package@) == 0);
            }
            // Fresh stations held nothing, so every pool is exactly the
            // registration order: duplicate-free.
            assert forall|i: int| 0 <= i < n implies crate::node::distinct_indices(
                #[trigger] net.node@[i].pick_up_package@,
            ) && crate::node::distinct_indices(net.node@[i].drop_off_package@) by {
                lemma_pickups_at_bounds(net.package@, i as usize, n_p);
                lemma_dropoffs_at_bounds(net.package@, i as usize, n_p);
                assert(after_trains.node@[i].pick_up_package@ + pickups_at(
                    net.package@,
                    i as usize,
                    n_p,
                ) =~= pickups_at(net.package@, i as usize, n_p));
                assert(net.node@[i].drop_off_package@ == dropoffs_at(
                    net.package@,
                    i as usize,
                    n_p,
                ));
            }
        }
        Ok(net)
    }
}

/// Rank a movement log ascending by time stamp, stable on ties.
fn sort_history_vec(v: Vec<crate::train::History>) -> (r: Vec<crate::train::History>)
    ensures
        r@ == crate::train::stable_sort_by_time(v@),
        crate::train::sorted_by_time(r@),
{
    let mut v = v;
    crate::train::sort_history(&mut v);
    v
}

/// Whether some record of the table names `src` as its destination.
pub open spec fn has_entry_for(spc: Seq<ShortestPathToCritical>, src: usize) -> bool {
    exists|j: int| 0 <= j < spc.len() && (#[trigger] spc[j]).destination == src
}

/// A table extended at its end keeps its destinations.
proof fn lemma_entry_for_prefix(
    a: Seq<ShortestPathToCritical>,
    b: Seq<ShortestPathToCritical>,
    src: usize,
)
    requires
        a.len() <= b.len(),
        b.subrange(0, a.len() as int) == a,
    ensures
        has_entry_for(a, src) ==> has_entry_for(b, src),
{
    if has_entry_for(a, src) {
        let j = choose|j: int| 0 <= j < a.len() && (#[trigger] a[j]).destination == src;
        assert(b[j] == a[j]);
    }
}

/// A table that keeps the same records (as a set) keeps its destinations.
proof fn lemma_entry_for_transfers(
    a: Seq<ShortestPathToCritical>,
    b: Seq<ShortestPathToCritical>,
    src: usize,
)
    requires
        forall|x: ShortestPathToCritical| b.contains(x) <==> #[trigger] a.contains(x),
    ensures
        has_entry_for(a, src) ==> has_entry_for(b, src),
{
    if has_entry_for(a, src) {
        let j = choose|j: int| 0 <= j < a.len() && (#[trigger] a[j]).destination == src;
        assert(a.contains(a[j]));
        assert(b.contains(a[j]));
        let j2 = choose|j2: int| 0 <= j2 < b.len() && b[j2] == a[j];
        assert(b[j2].destination == src);
    }
}

/// Prefix preservation composes across the two attachment passes of one
/// package: each station's table after both passes still starts with what it
/// held before either.
proof fn lemma_spc_prefix_chain(s0: Seq<Node>, s1: Seq<Node>, s2: Seq<Node>, s3: Seq<Node>)
    requires
        s0.len() == s1.len() == s2.len() == s3.len(),
        s1 == s2,
        forall|i: int|
            #![trigger s1[i]]
            0 <= i < s0.len() ==> {
                let a = s0[i].shortest_path_to_other_critical_nodes@;
                let b = s1[i].shortest_path_to_other_critical_nodes@;
                b.len() >= a.len() && b.subrange(0, a.len() as int) == a
            },
        forall|i: int|
            #![trigger s3[i]]
            0 <= i < s0.len() ==> {
                let a = s2[i].shortest_path_to_other_critical_nodes@;
                let b = s3[i].shortest_path_to_other_critical_nodes@;
                b.len() >= a.len() && b.subrange(0, a.len() as int) == a
            },
    ensures
        forall|i: int|
            #![trigger s3[i]]
            0 <= i < s0.len() ==> {
                let a = s0[i].shortest_path_to_other_critical_nodes@;
                let b = s3[i].shortest_path_to_other_critical_nodes@;
                b.len() >= a.len() && b.subrange(0, a.len() as int) == a
            },
{
    assert forall|i: int|
        #![trigger s3[i]]
        0 <= i < s0.len() implies {
        let a = s0[i].shortest_path_to_other_critical_nodes@;
        let b = s3[i].shortest_path_to_other_critical_nodes@;
        b.len() >= a.len() && b.subrange(0, a.len() as int) == a
    } by {
        let a = s0[i].shortest_path_to_other_critical_nodes@;
        let m = s1[i].shortest_path_to_other_critical_nodes@;
        let b = s3[i].shortest_path_to_other_critical_nodes@;
        assert(m.subrange(0, a.len() as int) == a);
        assert(b.subrange(0, m.len() as int) == m);
        assert(b.subrange(0, a.len() as int) =~= b.subrange(0, m.len() as int).subrange(
            0,
            a.len() as int,
        ));
    }
}

/// A mutable borrow of the station at index `i`.
fn set_at_node(v: &mut Vec<Node>, i: usize) -> (r: &mut Node)
    requires
        i < old(v)@.len(),
    ensures
        *r == old(v)@[i as int],
        final(v)@ == old(v)@.update(i as int, *final(r)),
{
    vstd::std_specs::vec::vec_index_mut(v, i)
}

/// Replace the element at index `i` of `v` with `x`, in place.
fn set_at<T>(v: &mut Vec<T>, i: usize, x: T)
    requires
        i < old(v)@.len(),
    ensures
        final(v)@ == old(v)@.update(i as int, x),
{
    let r = vstd::std_specs::vec::vec_index_mut(v, i);
    *r = x;
}

} // verus!
