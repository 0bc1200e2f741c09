//! A station: outgoing rails, packages waiting for pickup, package identities
//! to be dropped off here, and a ranked table of shortest paths to the other
//! critical stations.
use vstd::prelude::*;

use crate::edge::Edge;
use crate::SimError;
use vstd::multiset::Multiset;

verus! {

/// One entry of a station's route table: the shortest distance from the
/// critical station `destination` to this station, together with the full
/// predecessor map of the shortest-path run that started at `destination`.
/// `path[s]` is the predecessor of station `s` when walking from
/// `destination` toward `s`, or `None` for the run's source and for
/// unreachable stations. A train standing at station `s` that adopts this
/// entry looks up `path[s]` to learn its next hop toward `destination`.
pub struct ShortestPathToCritical {
    pub distance_to_destination: u64,
    pub destination: usize,
    pub path: Vec<Option<usize>>,
}

/// A station of the network. Rails, packages and trains are referred to by
/// their indices in the network's arenas. `critical` is sticky: it is set
/// when the station first hosts a pickup, a drop-off, or a train's initial
/// position, and never cleared.
pub struct Node {
    pub name: String,
    pub edge: Vec<usize>,
    pub pick_up_package: Vec<usize>,
    pub drop_off_package: Vec<usize>,
    pub train_here: Vec<usize>,
    pub shortest_path_to_other_critical_nodes: Vec<ShortestPathToCritical>,
    pub critical: bool,
}

/// The route-table entries are ranked by this key: ascending distance.
pub open spec fn sorted_by_distance(s: Seq<ShortestPathToCritical>) -> bool {
    forall|i: int, j: int|
        0 <= i < j < s.len() ==> s[i].distance_to_destination <= s[j].distance_to_destination
}

/// Insert `x` into `s` after every entry whose distance does not exceed
/// `x`'s. On a sorted sequence this is the stable insertion position: an
/// entry with an equal distance keeps its place before `x`.
pub open spec fn stable_insert(
    s: Seq<ShortestPathToCritical>,
    x: ShortestPathToCritical,
) -> Seq<ShortestPathToCritical>
    decreases s.len(),
{
    if s.len() == 0 {
        seq![x]
    } else if s.last().distance_to_destination <= x.distance_to_destination {
        s.push(x)
    } else {
        stable_insert(s.drop_last(), x).push(s.last())
    }
}

/// Insertion sort by distance: the canonical stable sort. Entries with equal
/// distances keep their original relative order.
pub open spec fn stable_sort_by_distance(
    s: Seq<ShortestPathToCritical>,
) -> Seq<ShortestPathToCritical>
    decreases s.len(),
{
    if s.len() == 0 {
        Seq::empty()
    } else {
        stable_insert(stable_sort_by_distance(s.drop_last()), s.last())
    }
}

/// Inserting into a sorted sequence keeps it sorted and adds exactly the new
/// entry.
pub proof fn lemma_stable_insert_sorted(s: Seq<ShortestPathToCritical>, x: ShortestPathToCritical)
    requires
        sorted_by_distance(s),
    ensures
        sorted_by_distance(stable_insert(s, x)),
        stable_insert(s, x).len() == s.len() + 1,
        stable_insert(s, x).to_multiset() == s.to_multiset().insert(x),
    decreases s.len(),
{
    broadcast use vstd::seq_lib::group_to_multiset_ensures;

    if s.len() == 0 {
        assert(stable_insert(s, x) =~= Seq::empty().push(x));
        assert(Seq::<ShortestPathToCritical>::empty().to_multiset() =~= Multiset::empty());
        assert(stable_insert(s, x).to_multiset() =~= s.to_multiset().insert(x));
    } else if s.last().distance_to_destination <= x.distance_to_destination {
        assert(stable_insert(s, x) == s.push(x));
    } else {
        let s0 = s.drop_last();
        assert(sorted_by_distance(s0));
        lemma_stable_insert_sorted(s0, x);
        let t = stable_insert(s0, x);
        // Every entry of t is either x or an entry of s0, so the final push
        // of s.last() (strictly greater than x, and >= all of s0) is in order.
        assert forall|i: int| 0 <= i < t.len() implies t[i].distance_to_destination
            <= s.last().distance_to_destination by {
            assert(t.to_multiset().count(t[i]) > 0);
            if t[i] != x {
                assert(s0.to_multiset().count(t[i]) > 0);
                assert(s0.contains(t[i]));
            }
        }
        assert(sorted_by_distance(t.push(s.last())));
        assert(s0.push(s.last()) =~= s);
        assert(t.push(s.last()).to_multiset() =~= s.to_multiset().insert(x));
    }
}

/// The canonical stable sort is sorted and is a permutation of its input.
pub proof fn lemma_stable_sort_by_distance(s: Seq<ShortestPathToCritical>)
    ensures
        sorted_by_distance(stable_sort_by_distance(s)),
        stable_sort_by_distance(s).len() == s.len(),
        stable_sort_by_distance(s).to_multiset() == s.to_multiset(),
    decreases s.len(),
{
    broadcast use vstd::seq_lib::group_to_multiset_ensures;

    if s.len() == 0 {
        assert(stable_sort_by_distance(s).to_multiset() =~= s.to_multiset());
    } else {
        let s0 = s.drop_last();
        lemma_stable_sort_by_distance(s0);
        lemma_stable_insert_sorted(stable_sort_by_distance(s0), s.last());
        assert(s0.push(s.last()) =~= s);
        assert(stable_sort_by_distance(s).to_multiset() =~= s.to_multiset());
    }
}

/// Where the stable insertion position is already known, the insert is a
/// plain sequence insert at that position.
proof fn lemma_stable_insert_at(
    s: Seq<ShortestPathToCritical>,
    x: ShortestPathToCritical,
    k: int,
)
    requires
        sorted_by_distance(s),
        0 <= k <= s.len(),
        k > 0 ==> s[k - 1].distance_to_destination <= x.distance_to_destination,
        forall|i: int|
            k <= i < s.len() ==> s[i].distance_to_destination > x.distance_to_destination,
    ensures
        stable_insert(s, x) == s.insert(k, x),
    decreases s.len(),
{
    if s.len() == 0 {
        assert(stable_insert(s, x) =~= s.insert(0, x));
    } else if s.last().distance_to_destination <= x.distance_to_destination {
        assert(k == s.len());
        assert(stable_insert(s, x) =~= s.insert(k, x));
    } else {
        let s0 = s.drop_last();
        assert(k < s.len());
        lemma_stable_insert_at(s0, x, k);
        assert(stable_insert(s, x) =~= s.insert(k, x));
    }
}

/// One route-table entry refers only to registered stations: its
/// destination resolves, and so does every predecessor its map names.
pub open spec fn spc_wf(e: ShortestPathToCritical, n_nodes: int) -> bool {
    &&& e.destination < n_nodes
    &&& forall|k: int|
        0 <= k < e.path@.len() ==> (e.path@[k] is Some ==> e.path@[k].unwrap() < n_nodes)
}

/// A station's cross-references resolve: the packages it lists exist in the
/// package arena, and its route-table entries refer only to registered
/// stations.
pub open spec fn node_refs_wf(n: Node, n_nodes: int, n_packages: int) -> bool {
    &&& forall|i: int| 0 <= i < n.pick_up_package@.len() ==> n.pick_up_package@[i] < n_packages
    &&& forall|i: int| 0 <= i < n.drop_off_package@.len() ==> n.drop_off_package@[i] < n_packages
    &&& forall|i: int|
        0 <= i < n.shortest_path_to_other_critical_nodes@.len() ==> spc_wf(
            n.shortest_path_to_other_critical_nodes@[i],
            n_nodes,
        )
}

/// Every station's cross-references resolve.
pub open spec fn nodes_refs_wf(nodes: Seq<Node>, n_packages: int) -> bool {
    forall|i: int|
        0 <= i < nodes.len() ==> #[trigger] node_refs_wf(nodes[i], nodes.len() as int, n_packages)
}

/// A station's outgoing rails exist in the edge arena.
pub open spec fn node_edges_wf(n: Node, n_edges: int) -> bool {
    forall|i: int| 0 <= i < n.edge@.len() ==> n.edge@[i] < n_edges
}

/// Every station's outgoing rails exist in the edge arena.
pub open spec fn nodes_edges_wf(nodes: Seq<Node>, n_edges: int) -> bool {
    forall|i: int| 0 <= i < nodes.len() ==> #[trigger] node_edges_wf(nodes[i], n_edges)
}

/// No arena index appears twice: the list behaves as a set.
pub open spec fn distinct_indices(s: Seq<usize>) -> bool {
    forall|i: int, j: int| 0 <= i < j < s.len() ==> s[i] != s[j]
}

/// Every hop a predecessor map prescribes is walkable: a rail leaves the
/// station for the named predecessor.
pub open spec fn hops_ok(route: Seq<Option<usize>>, edges: Seq<Edge>) -> bool {
    forall|v: int|
        0 <= v < route.len() && (#[trigger] route[v]) is Some ==> exists|e: int|
            0 <= e < edges.len() && edges[e].node1 == v && edges[e].node2 == route[v].unwrap()
}

/// Every predecessor map in every station's route table is walkable.
pub open spec fn tables_ok(nodes: Seq<Node>, edges: Seq<Edge>) -> bool {
    forall|i: int, j: int|
        0 <= i < nodes.len() && 0 <= j < nodes[i].shortest_path_to_other_critical_nodes@.len()
            ==> #[trigger] hops_ok(
            nodes[i].shortest_path_to_other_critical_nodes@[j].path@,
            edges,
        )
}

/// Every rail appears in the outgoing list of the station it leaves.
pub open spec fn edges_registered(nodes: Seq<Node>, edges: Seq<Edge>) -> bool {
    forall|e: int|
        0 <= e < edges.len() ==> nodes[#[trigger] edges[e].node1 as int].edge@.contains(e as usize)
}

impl Node {
    pub fn new(s: String) -> (n: Node)
        ensures
            n.name == s,
            n.edge@ == Seq::<usize>::empty(),
            n.pick_up_package@ == Seq::<usize>::empty(),
            n.drop_off_package@ == Seq::<usize>::empty(),
            n.train_here@ == Seq::<usize>::empty(),
            n.shortest_path_to_other_critical_nodes@
                == Seq::<ShortestPathToCritical>::empty(),
            !n.critical,
    {
        Node {
            name: s,
            edge: Vec::new(),
            pick_up_package: Vec::new(),
            drop_off_package: Vec::new(),
            train_here: Vec::new(),
            shortest_path_to_other_critical_nodes: Vec::new(),
            critical: false,
        }
    }

    pub fn get_name(&self) -> (r: String)
        ensures
            r == self.name,
    {
        self.name.clone()
    }

    /// All stations directly reachable from here, as pairs of the
    /// destination station and the traversal duration of the rail taken.
    pub fn get_neighbours(&self, edges: &Vec<Edge>) -> (r: Vec<(usize, u64)>)
        requires
            forall|i: int| 0 <= i < self.edge@.len() ==> self.edge@[i] < edges@.len(),
        ensures
            r@.len() == self.edge@.len(),
            forall|i: int|
                0 <= i < r@.len() ==> r@[i] == (
                    edges@[self.edge@[i] as int].node2,
                    edges@[self.edge@[i] as int].journey_time,
                ),
    {
        let mut ret: Vec<(usize, u64)> = Vec::new();
        let mut i: usize = 0;
        while i < self.edge.len()
            invariant
                i <= self.edge@.len(),
                forall|k: int| 0 <= k < self.edge@.len() ==> self.edge@[k] < edges@.len(),
                ret@.len() == i,
                forall|k: int|
                    0 <= k < i ==> ret@[k] == (
                        edges@[self.edge@[k] as int].node2,
                        edges@[self.edge@[k] as int].journey_time,
                    ),
            decreases self.edge@.len() - i,
        {
            let e = self.edge[i];
            ret.push((edges[e].node2, edges[e].journey_time));
            i += 1;
        }
        ret
    }

    pub fn add_edge(&mut self, edge: usize)
        ensures
            *final(self) == (Node { edge: final(self).edge, ..*old(self) }),
            final(self).edge@ == old(self).edge@.push(edge),
    {
        self.edge.push(edge);
    }

    /// Register a package as waiting for pickup here. Hosting a pickup makes
    /// the station critical.
    pub fn add_pick_up_package(&mut self, package: usize)
        ensures
            *final(self) == (Node {
                pick_up_package: final(self).pick_up_package,
                critical: true,
                ..*old(self)
            }),
            final(self).pick_up_package@ == old(self).pick_up_package@.push(package),
            forall|x: usize|
                final(self).pick_up_package@.contains(x) <==> (old(
                    self,
                ).pick_up_package@.contains(x) || x == package),
            (distinct_indices(old(self).pick_up_package@) && !old(
                self,
            ).pick_up_package@.contains(package)) ==> distinct_indices(
                final(self).pick_up_package@,
            ),
    {
        self.pick_up_package.push(package);
        proof {
            lemma_push_contains(old(self).pick_up_package@, package);
        }
        self.critical = true;
    }

    /// Register a package whose destination is this station: the identity
    /// joins the drop-off set if it is not already there, and the station
    /// becomes critical either way.
    pub fn add_drop_off_package(&mut self, package: usize)
        ensures
            *final(self) == (Node {
                drop_off_package: final(self).drop_off_package,
                critical: true,
                ..*old(self)
            }),
            old(self).drop_off_package@.contains(package) ==> final(self).drop_off_package@
                == old(self).drop_off_package@,
            !old(self).drop_off_package@.contains(package) ==> final(self).drop_off_package@
                == old(self).drop_off_package@.push(package),
            forall|x: usize|
                final(self).drop_off_package@.contains(x) <==> (old(
                    self,
                ).drop_off_package@.contains(x) || x == package),
            distinct_indices(old(self).drop_off_package@) ==> distinct_indices(
                final(self).drop_off_package@,
            ),
    {
        if !contains_index(&self.drop_off_package, package) {
            self.drop_off_package.push(package);
            proof {
                lemma_push_contains(old(self).drop_off_package@, package);
            }
        }
        self.critical = true;
    }

    /// Register a train as starting here. Hosting a train's initial position
    /// makes the station critical.
    pub fn add_train(&mut self, train: usize)
        ensures
            *final(self) == (Node {
                train_here: final(self).train_here,
                critical: true,
                ..*old(self)
            }),
            final(self).train_here@ == old(self).train_here@.push(train),
    {
        self.train_here.push(train);
        self.critical = true;
    }

    pub fn is_critical(&self) -> (r: bool)
        ensures
            r == self.critical,
    {
        self.critical
    }

    /// Attach one shortest-path record: the distance from the critical
    /// station `dest` to this station, and the predecessor map of the run
    /// that produced it.
    pub fn add_shortest_path(&mut self, dis: u64, dest: usize, path: Vec<Option<usize>>)
        ensures
            *final(self) == (Node {
                shortest_path_to_other_critical_nodes:
                    final(self).shortest_path_to_other_critical_nodes,
                ..*old(self)
            }),
            final(self).shortest_path_to_other_critical_nodes@
                == old(self).shortest_path_to_other_critical_nodes@.push(
                    ShortestPathToCritical {
                        distance_to_destination: dis,
                        destination: dest,
                        path,
                    },
                ),
    {
        self.shortest_path_to_other_critical_nodes.push(ShortestPathToCritical {
            distance_to_destination: dis,
            destination: dest,
            path,
        });
    }

    /// Rank the attached shortest-path records ascending by distance, keeping
    /// insertion order among records of equal distance, so that a train can
    /// scan them nearest-first and stop at the first serviceable one.
    pub fn sort_shortest_dest(&mut self)
        ensures
            *final(self) == (Node {
                shortest_path_to_other_critical_nodes:
                    final(self).shortest_path_to_other_critical_nodes,
                ..*old(self)
            }),
            final(self).shortest_path_to_other_critical_nodes@
                == stable_sort_by_distance(old(self).shortest_path_to_other_critical_nodes@),
            sorted_by_distance(final(self).shortest_path_to_other_critical_nodes@),
    {
        let ghost input = self.shortest_path_to_other_critical_nodes@;
        let n = self.shortest_path_to_other_critical_nodes.len();
        proof {
            assert(input.subrange(0, 0) =~= Seq::<ShortestPathToCritical>::empty());
            assert(stable_sort_by_distance(input.subrange(0, 0))
                + input.subrange(0, n as int) =~= input);
        }
        let mut i: usize = 0;
        while i < n
            invariant
                i <= n,
                n == input.len(),
                *self == (Node {
                    shortest_path_to_other_critical_nodes:
                        self.shortest_path_to_other_critical_nodes,
                    ..*old(self)
                }),
                self.shortest_path_to_other_critical_nodes@.len() == n,
                self.shortest_path_to_other_critical_nodes@
                    == stable_sort_by_distance(input.subrange(0, i as int))
                        + input.subrange(i as int, n as int),
                sorted_by_distance(
                    self.shortest_path_to_other_critical_nodes@.subrange(0, i as int),
                ),
            decreases n - i,
        {
            let ghost sorted_prefix = stable_sort_by_distance(input.subrange(0, i as int));
            proof {
                lemma_stable_sort_by_distance(input.subrange(0, i as int));
                assert(self.shortest_path_to_other_critical_nodes@.subrange(0, i as int)
                    =~= sorted_prefix);
                assert(self.shortest_path_to_other_critical_nodes@[i as int]
                    == input[i as int]);
            }
            let x = self.shortest_path_to_other_critical_nodes.remove(i);
            let ghost mid = self.shortest_path_to_other_critical_nodes@;
            let ghost frame = *self;
            proof {
                assert(mid.subrange(0, i as int) =~= sorted_prefix);
            }
            let mut k: usize = i;
            while k > 0 && self.shortest_path_to_other_critical_nodes[k - 1]
                .distance_to_destination > x.distance_to_destination
                invariant
                    k <= i,
                    i < n,
                    n == input.len(),
                    *self == frame,
                    self.shortest_path_to_other_critical_nodes@ == mid,
                    mid.len() == n - 1,
                    mid.subrange(0, i as int) == sorted_prefix,
                    sorted_prefix.len() == i,
                    forall|m: int|
                        k <= m < i ==> sorted_prefix[m].distance_to_destination
                            > x.distance_to_destination,
                decreases k,
            {
                proof {
                    assert(mid[k - 1] == sorted_prefix[k - 1]);
                }
                k -= 1;
            }
            proof {
                if k > 0 {
                    assert(mid[k - 1] == sorted_prefix[k - 1]);
                }
            }
            self.shortest_path_to_other_critical_nodes.insert(k, x);
            proof {
                lemma_stable_sort_by_distance(input.subrange(0, i as int));
                lemma_stable_insert_at(sorted_prefix, x, k as int);
                lemma_stable_insert_sorted(sorted_prefix, x);
                assert(input.subrange(0, i + 1).drop_last() =~= input.subrange(0, i as int));
                assert(input.subrange(0, i + 1).last() == input[i as int]);
                assert(self.shortest_path_to_other_critical_nodes@
                    =~= stable_sort_by_distance(input.subrange(0, i + 1))
                        + input.subrange(i + 1, n as int));
                assert(self.shortest_path_to_other_critical_nodes@.subrange(0, i + 1)
                    =~= stable_sort_by_distance(input.subrange(0, i + 1)));
            }
            i += 1;
        }
        proof {
            assert(input.subrange(0, n as int) =~= input);
            assert(input.subrange(n as int, n as int)
                =~= Seq::<ShortestPathToCritical>::empty());
            assert(stable_sort_by_distance(input)
                + input.subrange(n as int, n as int) =~= stable_sort_by_distance(input));
            if n == 0 {
                assert(self.shortest_path_to_other_critical_nodes@
                    =~= stable_sort_by_distance(input));
            }
            lemma_stable_sort_by_distance(input);
        }
    }

    /// The ranked shortest-path records, nearest critical station first once
    /// `sort_shortest_dest` has run.
    pub fn get_shortest_path(&self) -> (r: &Vec<ShortestPathToCritical>)
        ensures
            r@ == self.shortest_path_to_other_critical_nodes@,
    {
        &self.shortest_path_to_other_critical_nodes
    }

    /// The packages currently waiting for pickup here.
    pub fn get_package(&self) -> (r: Vec<usize>)
        ensures
            r@ == self.pick_up_package@,
    {
        copy_indices(&self.pick_up_package)
    }

    /// Take a package out of the pickup pool: the first occurrence of
    /// `package` leaves the list, and nothing else changes. A package that is
    /// not waiting here leaves the station untouched.
    pub fn remove_package(&mut self, package: usize)
        ensures
            *final(self) == (Node {
                pick_up_package: final(self).pick_up_package,
                ..*old(self)
            }),
            old(self).pick_up_package@.contains(package) ==> (exists|j: int|
                {
                    &&& 0 <= j < old(self).pick_up_package@.len()
                    &&& old(self).pick_up_package@[j] == package
                    &&& forall|m: int| 0 <= m < j ==> old(self).pick_up_package@[m] != package
                    &&& final(self).pick_up_package@ == old(self).pick_up_package@.remove(j)
                }),
            !old(self).pick_up_package@.contains(package) ==> final(self).pick_up_package@
                == old(self).pick_up_package@,
            distinct_indices(old(self).pick_up_package@) ==> {
                &&& distinct_indices(final(self).pick_up_package@)
                &&& !final(self).pick_up_package@.contains(package)
                &&& forall|x: usize|
                    x != package ==> (final(self).pick_up_package@.contains(x) <==> old(
                        self,
                    ).pick_up_package@.contains(x))
            },
    {
        let mut j: usize = 0;
        while j < self.pick_up_package.len()
            invariant
                j <= self.pick_up_package@.len(),
                self.pick_up_package@ == old(self).pick_up_package@,
                *self == *old(self),
                forall|m: int| 0 <= m < j ==> self.pick_up_package@[m] != package,
            decreases self.pick_up_package@.len() - j,
        {
            if self.pick_up_package[j] == package {
                let ghost pool = self.pick_up_package@;
                self.pick_up_package.remove(j);
                proof {
                    if distinct_indices(pool) {
                        lemma_remove_distinct(pool, j as int);
                    }
                }
                return;
            }
            j += 1;
        }
        proof {
            assert(!old(self).pick_up_package@.contains(package));
        }
    }

    /// The identities of the packages whose destination is this station.
    pub fn get_drop_off(&self) -> (r: Vec<usize>)
        ensures
            r@ == self.drop_off_package@,
    {
        copy_indices(&self.drop_off_package)
    }

    /// Find the outgoing rail that leads directly to station `dest`: the
    /// first one registered here whose end is `dest`. Fails with
    /// `EdgeNotFound` when no such rail leaves this station.
    pub fn get_edge(&self, edges: &Vec<Edge>, dest: usize) -> (r: Result<usize, SimError>)
        requires
            forall|i: int| 0 <= i < self.edge@.len() ==> self.edge@[i] < edges@.len(),
        ensures
            match r {
                Ok(e) => {
                    &&& self.edge@.contains(e)
                    &&& edges@[e as int].node2 == dest
                    &&& exists|i: int|
                        {
                            &&& 0 <= i < self.edge@.len()
                            &&& self.edge@[i] == e
                            &&& forall|k: int|
                                0 <= k < i ==> edges@[self.edge@[k] as int].node2 != dest
                        }
                },
                Err(err) => {
                    &&& err == SimError::EdgeNotFound
                    &&& forall|i: int|
                        0 <= i < self.edge@.len() ==> edges@[self.edge@[i] as int].node2 != dest
                },
            },
    {
        let mut i: usize = 0;
        while i < self.edge.len()
            invariant
                i <= self.edge@.len(),
                forall|m: int| 0 <= m < self.edge@.len() ==> self.edge@[m] < edges@.len(),
                forall|k: int| 0 <= k < i ==> edges@[self.edge@[k] as int].node2 != dest,
            decreases self.edge@.len() - i,
        {
            let e = self.edge[i];
            if edges[e].node2 == dest {
                return Ok(e);
            }
            i += 1;
        }
        Err(SimError::EdgeNotFound)
    }
}

/// Whether a list of arena indices mentions `x`.
pub(crate) fn contains_index(v: &Vec<usize>, x: usize) -> (r: bool)
    ensures
        r == v@.contains(x),
{
    let mut i: usize = 0;
    while i < v.len()
        invariant
            i <= v@.len(),
            forall|m: int| 0 <= m < i ==> v@[m] != x,
        decreases v@.len() - i,
    {
        if v[i] == x {
            return true;
        }
        i += 1;
    }
    false
}

/// What appending one index does to membership.
proof fn lemma_push_contains(s: Seq<usize>, p: usize)
    ensures
        forall|x: usize| s.push(p).contains(x) <==> (s.contains(x) || x == p),
{
    assert forall|x: usize| s.push(p).contains(x) <==> (s.contains(x) || x == p) by {
        if s.contains(x) {
            let w = choose|w: int| 0 <= w < s.len() && s[w] == x;
            assert(s.push(p)[w] == x);
        }
        if x == p {
            assert(s.push(p)[s.len() as int] == x);
        }
        if s.push(p).contains(x) && x != p {
            let w = choose|w: int| 0 <= w < s.push(p).len() && s.push(p)[w] == x;
            assert(s[w] == x);
        }
    }
}

/// Removing the only occurrence of an index from a duplicate-free list
/// keeps it duplicate-free, drops that index, and keeps every other.
proof fn lemma_remove_distinct(s: Seq<usize>, j: int)
    requires
        distinct_indices(s),
        0 <= j < s.len(),
    ensures
        distinct_indices(s.remove(j)),
        !s.remove(j).contains(s[j]),
        forall|x: usize| x != s[j] ==> (s.remove(j).contains(x) <==> s.contains(x)),
{
    let t = s.remove(j);
    assert forall|a: int, b: int| 0 <= a < b < t.len() implies t[a] != t[b] by {
        let a0 = if a < j { a } else { a + 1 };
        let b0 = if b < j { b } else { b + 1 };
        assert(t[a] == s[a0] && t[b] == s[b0]);
    }
    assert forall|w: int| 0 <= w < t.len() implies t[w] != s[j] by {
        let w0 = if w < j { w } else { w + 1 };
        assert(t[w] == s[w0]);
    }
    assert forall|x: usize| x != s[j] implies (t.contains(x) <==> s.contains(x)) by {
        if t.contains(x) {
            let w = choose|w: int| 0 <= w < t.len() && t[w] == x;
            let w0 = if w < j { w } else { w + 1 };
            assert(s[w0] == x);
        }
        if s.contains(x) {
            let w0 = choose|w0: int| 0 <= w0 < s.len() && s[w0] == x;
            let w = if w0 < j { w0 } else { w0 - 1 };
            assert(t[w] == x);
        }
    }
}

/// An element-for-element copy of a list of arena indices.
fn copy_indices(v: &Vec<usize>) -> (r: Vec<usize>)
    ensures
        r@ == v@,
{
    let mut r: Vec<usize> = Vec::new();
    let mut i: usize = 0;
    while i < v.len()
        invariant
            i <= v@.len(),
            r@ == v@.subrange(0, i as int),
        decreases v@.len() - i,
    {
        r.push(v[i]);
        i += 1;
    }
    proof {
        assert(v@.subrange(0, v@.len() as int) =~= v@);
    }
    r
}

/// An element-for-element copy of a predecessor map.
pub fn copy_path(v: &Vec<Option<usize>>) -> (r: Vec<Option<usize>>)
    ensures
        r@ == v@,
{
    let mut r: Vec<Option<usize>> = Vec::new();
    let mut i: usize = 0;
    while i < v.len()
        invariant
            i <= v@.len(),
            r@ == v@.subrange(0, i as int),
        decreases v@.len() - i,
    {
        r.push(v[i]);
        i += 1;
    }
    proof {
        assert(v@.subrange(0, v@.len() as int) =~= v@);
    }
    r
}

} // verus!
