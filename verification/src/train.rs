//! Trains: capacity-bounded carriers that move across rails one tick at a
//! time, loading and unloading packages at stations and logging every leg of
//! their journey.
use vstd::multiset::Multiset;
use vstd::prelude::*;

use crate::edge::Edge;
use crate::node::{Node, ShortestPathToCritical};
use crate::package::Package;
use crate::SimError;

verus! {

/// Where a train currently is: parked at a station, or part-way along a rail.
#[derive(Clone, Copy, PartialEq, Eq, Structural, Debug)]
pub enum Location {
    /// Traversing the rail with this index.
    Edge(usize),
    /// Parked at the station with this index.
    Node(usize),
}

/// One leg of a train's journey: opened when the train departs from station
/// `n1` at time `w` with the packages `p1` freshly loaded, and closed when
/// the leg ends at station `n2` where the packages `p2` are unloaded. `n2`
/// stays empty while the leg is still in progress.
pub struct History {
    pub w: u64,
    pub t: String,
    pub n1: String,
    pub p1: Vec<String>,
    pub n2: String,
    pub p2: Vec<String>,
}

impl History {
    pub fn new(w: u64, t: String) -> (h: History)
        ensures
            h.w == w,
            h.t == t,
            h.n1@ == Seq::<char>::empty(),
            h.p1@ == Seq::<String>::empty(),
            h.n2@ == Seq::<char>::empty(),
            h.p2@ == Seq::<String>::empty(),
    {
        History {
            w,
            t,
            n1: String::new(),
            p1: Vec::new(),
            n2: String::new(),
            p2: Vec::new(),
        }
    }

    /// Fill in the departure half of the record: the station left and the
    /// packages loaded there.
    pub fn register_departure(&mut self, n1: String, p1: Vec<String>)
        ensures
            *final(self) == (History { n1, p1, ..*old(self) }),
    {
        self.n1 = n1;
        self.p1 = p1;
    }

    /// Fill in the arrival half of the record: the station reached and the
    /// packages unloaded there.
    pub fn register_arrival(&mut self, n2: String, p2: Vec<String>)
        ensures
            *final(self) == (History { n2, p2, ..*old(self) }),
    {
        self.n2 = n2;
        self.p2 = p2;
    }
}

/// Two records that carry the same data: equal stamps, names and package
/// lists. (Copying a record copies its lists element for element, so the
/// copy is `record_eq` to the original.)
pub open spec fn record_eq(a: History, b: History) -> bool {
    &&& a.w == b.w
    &&& a.t == b.t
    &&& a.n1 == b.n1
    &&& a.p1@ == b.p1@
    &&& a.n2 == b.n2
    &&& a.p2@ == b.p2@
}

/// Two logs that carry the same data, record for record.
pub open spec fn records_eq(a: Seq<History>, b: Seq<History>) -> bool {
    a.len() == b.len() && forall|i: int| 0 <= i < a.len() ==> record_eq(a[i], b[i])
}

impl Clone for History {
    /// An exact copy of the record.
    fn clone(&self) -> (r: Self)
        ensures
            record_eq(r, *self),
    {
        History {
            w: self.w,
            t: self.t.clone(),
            n1: self.n1.clone(),
            p1: clone_names(&self.p1),
            n2: self.n2.clone(),
            p2: clone_names(&self.p2),
        }
    }
}

/// An element-for-element copy of a list of package names.
fn clone_names(v: &Vec<String>) -> (r: Vec<String>)
    ensures
        r@ == v@,
{
    let mut r: Vec<String> = Vec::new();
    let mut i: usize = 0;
    while i < v.len()
        invariant
            i <= v@.len(),
            r@ == v@.subrange(0, i as int),
        decreases v@.len() - i,
    {
        r.push(v[i].clone());
        i += 1;
    }
    proof {
        assert(v@.subrange(0, v@.len() as int) =~= v@);
    }
    r
}

/// Stable insertion treats `record_eq` logs alike: the stamps drive it, and
/// they agree.
pub proof fn lemma_stable_insert_by_time_congruent(
    a: Seq<History>,
    b: Seq<History>,
    x: History,
    y: History,
)
    requires
        records_eq(a, b),
        record_eq(x, y),
    ensures
        records_eq(stable_insert_by_time(a, x), stable_insert_by_time(b, y)),
    decreases a.len(),
{
    if a.len() == 0 {
    } else if a.last().w <= x.w {
        assert(record_eq(a.last(), b.last()));
    } else {
        assert(record_eq(a.last(), b.last()));
        assert(records_eq(a.drop_last(), b.drop_last()));
        lemma_stable_insert_by_time_congruent(a.drop_last(), b.drop_last(), x, y);
    }
}

/// The canonical time sort treats `record_eq` logs alike.
pub proof fn lemma_stable_sort_by_time_congruent(a: Seq<History>, b: Seq<History>)
    requires
        records_eq(a, b),
    ensures
        records_eq(stable_sort_by_time(a), stable_sort_by_time(b)),
    decreases a.len(),
{
    if a.len() > 0 {
        assert(records_eq(a.drop_last(), b.drop_last()));
        lemma_stable_sort_by_time_congruent(a.drop_last(), b.drop_last());
        assert(record_eq(a.last(), b.last()));
        lemma_stable_insert_by_time_congruent(
            stable_sort_by_time(a.drop_last()),
            stable_sort_by_time(b.drop_last()),
            a.last(),
            b.last(),
        );
    }
}

/// The movement log is ranked by this key: ascending time stamp.
pub open spec fn sorted_by_time(s: Seq<History>) -> bool {
    forall|i: int, j: int| 0 <= i < j < s.len() ==> s[i].w <= s[j].w
}

/// Insert `x` into `s` after every record whose time stamp does not exceed
/// `x`'s: the stable insertion position.
pub open spec fn stable_insert_by_time(s: Seq<History>, x: History) -> Seq<History>
    decreases s.len(),
{
    if s.len() == 0 {
        seq![x]
    } else if s.last().w <= x.w {
        s.push(x)
    } else {
        stable_insert_by_time(s.drop_last(), x).push(s.last())
    }
}

/// Insertion sort by time stamp: the canonical stable sort. Records with
/// equal stamps keep their original relative order.
pub open spec fn stable_sort_by_time(s: Seq<History>) -> Seq<History>
    decreases s.len(),
{
    if s.len() == 0 {
        Seq::empty()
    } else {
        stable_insert_by_time(stable_sort_by_time(s.drop_last()), s.last())
    }
}

/// Inserting into a time-ranked log keeps it ranked and adds exactly the
/// new record.
pub proof fn lemma_stable_insert_by_time(s: Seq<History>, x: History)
    requires
        sorted_by_time(s),
    ensures
        sorted_by_time(stable_insert_by_time(s, x)),
        stable_insert_by_time(s, x).len() == s.len() + 1,
        stable_insert_by_time(s, x).to_multiset() == s.to_multiset().insert(x),
    decreases s.len(),
{
    broadcast use vstd::seq_lib::group_to_multiset_ensures;

    if s.len() == 0 {
        assert(stable_insert_by_time(s, x) =~= Seq::empty().push(x));
        assert(Seq::<History>::empty().to_multiset() =~= vstd::multiset::Multiset::empty());
        assert(stable_insert_by_time(s, x).to_multiset() =~= s.to_multiset().insert(x));
    } else if s.last().w <= x.w {
        assert(stable_insert_by_time(s, x) == s.push(x));
    } else {
        let s0 = s.drop_last();
        assert(sorted_by_time(s0));
        lemma_stable_insert_by_time(s0, x);
        let t = stable_insert_by_time(s0, x);
        assert forall|i: int| 0 <= i < t.len() implies t[i].w <= s.last().w by {
            assert(t.to_multiset().count(t[i]) > 0);
            if t[i] != x {
                assert(s0.to_multiset().count(t[i]) > 0);
                assert(s0.contains(t[i]));
            }
        }
        assert(sorted_by_time(t.push(s.last())));
        assert(s0.push(s.last()) =~= s);
        assert(t.push(s.last()).to_multiset() =~= s.to_multiset().insert(x));
    }
}

/// The canonical time sort is ranked and is a permutation of its input.
pub proof fn lemma_stable_sort_by_time(s: Seq<History>)
    ensures
        sorted_by_time(stable_sort_by_time(s)),
        stable_sort_by_time(s).len() == s.len(),
        stable_sort_by_time(s).to_multiset() == s.to_multiset(),
    decreases s.len(),
{
    broadcast use vstd::seq_lib::group_to_multiset_ensures;

    if s.len() == 0 {
        assert(stable_sort_by_time(s).to_multiset() =~= s.to_multiset());
    } else {
        let s0 = s.drop_last();
        lemma_stable_sort_by_time(s0);
        lemma_stable_insert_by_time(stable_sort_by_time(s0), s.last());
        assert(s0.push(s.last()) =~= s);
        assert(stable_sort_by_time(s).to_multiset() =~= s.to_multiset());
    }
}

/// Where the stable insertion position is already known, the insert is a
/// plain sequence insert at that position.
proof fn lemma_stable_insert_by_time_at(s: Seq<History>, x: History, k: int)
    requires
        sorted_by_time(s),
        0 <= k <= s.len(),
        k > 0 ==> s[k - 1].w <= x.w,
        forall|i: int| k <= i < s.len() ==> s[i].w > x.w,
    ensures
        stable_insert_by_time(s, x) == s.insert(k, x),
    decreases s.len(),
{
    if s.len() == 0 {
        assert(stable_insert_by_time(s, x) =~= s.insert(0, x));
    } else if s.last().w <= x.w {
        assert(k == s.len());
        assert(stable_insert_by_time(s, x) =~= s.insert(k, x));
    } else {
        let s0 = s.drop_last();
        assert(k < s.len());
        lemma_stable_insert_by_time_at(s0, x, k);
        assert(stable_insert_by_time(s, x) =~= s.insert(k, x));
    }
}

/// Rank a movement log ascending by time stamp, keeping the original order
/// among records with equal stamps.
pub fn sort_history(v: &mut Vec<History>)
    ensures
        final(v)@ == stable_sort_by_time(old(v)@),
        sorted_by_time(final(v)@),
{
    let ghost input = v@;
    let n = v.len();
    proof {
        assert(input.subrange(0, 0) =~= Seq::<History>::empty());
        assert(stable_sort_by_time(input.subrange(0, 0)) + input.subrange(0, n as int) =~= input);
    }
    let mut i: usize = 0;
    while i < n
        invariant
            i <= n,
            n == input.len(),
            v@.len() == n,
            v@ == stable_sort_by_time(input.subrange(0, i as int)) + input.subrange(
                i as int,
                n as int,
            ),
            sorted_by_time(v@.subrange(0, i as int)),
        decreases n - i,
    {
        let ghost sorted_prefix = stable_sort_by_time(input.subrange(0, i as int));
        proof {
            lemma_stable_sort_by_time(input.subrange(0, i as int));
            assert(v@.subrange(0, i as int) =~= sorted_prefix);
            assert(v@[i as int] == input[i as int]);
        }
        let x = v.remove(i);
        let ghost mid = v@;
        proof {
            assert(mid.subrange(0, i as int) =~= sorted_prefix);
        }
        let mut k: usize = i;
        while k > 0 && v[k - 1].w > x.w
            invariant
                k <= i,
                i < n,
                n == input.len(),
                v@ == mid,
                mid.len() == n - 1,
                mid.subrange(0, i as int) == sorted_prefix,
                sorted_prefix.len() == i,
                forall|m: int| k <= m < i ==> sorted_prefix[m].w > x.w,
            decreases k,
        {
            proof {
                assert(mid[k - 1] == sorted_prefix[k - 1]);
            }
            k -= 1;
        }
        proof {
            if k > 0 {
                assert(mid[k - 1] == sorted_prefix[k - 1]);
            }
        }
        v.insert(k, x);
        proof {
            lemma_stable_sort_by_time(input.subrange(0, i as int));
            lemma_stable_insert_by_time_at(sorted_prefix, x, k as int);
            lemma_stable_insert_by_time(sorted_prefix, x);
            assert(input.subrange(0, i + 1).drop_last() =~= input.subrange(0, i as int));
            assert(input.subrange(0, i + 1).last() == input[i as int]);
            assert(v@ =~= stable_sort_by_time(input.subrange(0, i + 1)) + input.subrange(
                i + 1,
                n as int,
            ));
            assert(v@.subrange(0, i + 1) =~= stable_sort_by_time(input.subrange(0, i + 1)));
        }
        i += 1;
    }
    proof {
        assert(input.subrange(0, n as int) =~= input);
        assert(input.subrange(n as int, n as int) =~= Seq::<History>::empty());
        assert(stable_sort_by_time(input) + input.subrange(n as int, n as int)
            =~= stable_sort_by_time(input));
        if n == 0 {
            assert(v@ =~= stable_sort_by_time(input));
        }
        lemma_stable_sort_by_time(input);
    }
}

/// A train. `capacity` is fixed; `load` is the sum of the weights of the
/// carried packages and never exceeds the capacity. `route` is the
/// predecessor map adopted from the current target's shortest-path run:
/// `route[s]` names the next hop for a train standing at station `s`.
/// `time` counts the ticks spent so far on the current rail. `end_trip`
/// marks a train that found no further productive routing; it never moves
/// again.
pub struct Train {
    pub name: String,
    pub capacity: u64,
    pub load: u64,
    pub package: Vec<usize>,
    pub location: Location,
    pub route: Vec<Option<usize>>,
    pub time: u64,
    pub history: Vec<History>,
    pub end_trip: bool,
}

/// The combined weight of the packages named by `l`.
pub open spec fn load_of(packages: Seq<Package>, l: Seq<usize>) -> int
    decreases l.len(),
{
    if l.len() == 0 {
        0
    } else {
        packages[l.first() as int].weight + load_of(packages, l.drop_first())
    }
}

pub proof fn lemma_load_of_nonneg(packages: Seq<Package>, l: Seq<usize>)
    ensures
        load_of(packages, l) >= 0,
    decreases l.len(),
{
    if l.len() > 0 {
        lemma_load_of_nonneg(packages, l.drop_first());
    }
}

/// `load_of` reads only the weights, so arenas that agree on every weight
/// give the same load.
pub proof fn lemma_load_of_same_weights(p1: Seq<Package>, p2: Seq<Package>, l: Seq<usize>)
    requires
        p1.len() == p2.len(),
        forall|i: int| 0 <= i < p1.len() ==> p1[i].weight == p2[i].weight,
        forall|i: int| 0 <= i < l.len() ==> l[i] < p1.len(),
    ensures
        load_of(p1, l) == load_of(p2, l),
    decreases l.len(),
{
    if l.len() > 0 {
        assert(forall|i: int| 0 <= i < l.drop_first().len() ==> l.drop_first()[i] < p1.len());
        lemma_load_of_same_weights(p1, p2, l.drop_first());
    }
}

/// A train is well formed with respect to the arenas: every index it holds
/// resolves, its load is the combined weight of what it carries, the load
/// respects the capacity, and a parked train has no elapsed rail time.
pub open spec fn train_wf(
    t: Train,
    n_nodes: int,
    n_edges: int,
    packages: Seq<Package>,
) -> bool {
    &&& forall|i: int| 0 <= i < t.package@.len() ==> t.package@[i] < packages.len()
    &&& t.load == load_of(packages, t.package@)
    &&& t.load <= t.capacity
    &&& match t.location {
        Location::Node(s) => s < n_nodes && t.time == 0,
        Location::Edge(e) => e < n_edges,
    }
    &&& forall|i: int|
        0 <= i < t.route@.len() ==> (t.route@[i] is Some ==> t.route@[i].unwrap() < n_nodes)
}

/// Whether a route-table entry is worth adopting for a train with the given
/// cargo: its destination is where one of the carried packages must go.
pub open spec fn entry_has_drop(carried: Seq<usize>, nodes: Seq<Node>, e: ShortestPathToCritical) -> bool {
    exists|j: int|
        0 <= j < nodes[e.destination as int].drop_off_package@.len()
            && carried.contains(nodes[e.destination as int].drop_off_package@[j])
}

/// Whether a route-table entry is worth adopting for a train with the given
/// spare capacity: an undelivered package that still fits waits at its
/// destination.
pub open spec fn entry_has_pick(
    load: u64,
    capacity: u64,
    nodes: Seq<Node>,
    packages: Seq<Package>,
    e: ShortestPathToCritical,
) -> bool {
    exists|j: int|
        {
            &&& 0 <= j < nodes[e.destination as int].pick_up_package@.len()
            &&& !packages[nodes[e.destination as int].pick_up_package@[j] as int].arrived
            &&& load + packages[nodes[e.destination as int].pick_up_package@[j] as int].weight
                <= capacity
        }
}

/// A route-table entry serves a train when it offers a drop-off or a pickup
/// opportunity.
pub open spec fn entry_serves(
    carried: Seq<usize>,
    load: u64,
    capacity: u64,
    nodes: Seq<Node>,
    packages: Seq<Package>,
    e: ShortestPathToCritical,
) -> bool {
    entry_has_drop(carried, nodes, e) || entry_has_pick(load, capacity, nodes, packages, e)
}

/// What `find_new_target` leaves in the train's route: the predecessor map
/// of the first serviceable entry of the station's ranked table, or an empty
/// route when no entry serves.
pub open spec fn chosen_route(
    carried: Seq<usize>,
    load: u64,
    capacity: u64,
    nodes: Seq<Node>,
    packages: Seq<Package>,
    entries: Seq<ShortestPathToCritical>,
    route: Seq<Option<usize>>,
) -> bool {
    if exists|i: int|
        0 <= i < entries.len() && entry_serves(carried, load, capacity, nodes, packages, entries[i]) {
        exists|i: int|
            {
                &&& 0 <= i < entries.len()
                &&& entry_serves(carried, load, capacity, nodes, packages, entries[i])
                &&& forall|m: int|
                    0 <= m < i ==> !entry_serves(carried, load, capacity, nodes, packages, entries[m])
                &&& route == entries[i].path@
            }
    } else {
        route.len() == 0
    }
}

/// The next hop a route prescribes for a train standing at station `s`:
/// the stored predecessor, or nothing when the route is empty or has no
/// entry for `s`.
pub open spec fn route_next(route: Seq<Option<usize>>, s: usize) -> Option<usize> {
    if s < route.len() {
        route[s as int]
    } else {
        None
    }
}

/// A train parked at a station whose adopted route names a next hop that no
/// rail out of the station reaches: the broken-topology state on which a
/// tick fails with `EdgeNotFound`.
pub open spec fn train_stuck(t: Train, nodes: Seq<Node>, edges: Seq<Edge>) -> bool {
    &&& t.location is Node
    &&& t.location->Node_0 < nodes.len()
    &&& route_next(t.route@, t.location->Node_0) is Some
    &&& forall|j: int|
        0 <= j < nodes[t.location->Node_0 as int].edge@.len() ==> edges[#[trigger] nodes[t.location->Node_0 as int].edge@[j] as int].node2
            != route_next(t.route@, t.location->Node_0).unwrap()
}

pub proof fn lemma_load_of_push(packages: Seq<Package>, l: Seq<usize>, p: usize)
    ensures
        load_of(packages, l.push(p)) == load_of(packages, l) + packages[p as int].weight,
    decreases l.len(),
{
    if l.len() == 0 {
        assert(l.push(p).first() == p);
        assert(l.push(p).drop_first() =~= Seq::<usize>::empty());
        assert(load_of(packages, l.push(p)) == packages[p as int].weight + load_of(
            packages,
            l.push(p).drop_first(),
        ));
        assert(load_of(packages, Seq::<usize>::empty()) == 0);
        assert(load_of(packages, l) == 0);
    } else {
        assert(l.push(p).drop_first() =~= l.drop_first().push(p));
        assert(l.push(p).first() == l.first());
        lemma_load_of_push(packages, l.drop_first(), p);
        assert(load_of(packages, l.push(p)) == packages[l.first() as int].weight + load_of(
            packages,
            l.push(p).drop_first(),
        ));
        assert(load_of(packages, l) == packages[l.first() as int].weight + load_of(
            packages,
            l.drop_first(),
        ));
    }
}

/// The packages a train carrying `carried` unloads at station `s`: those
/// whose destination is `s`, in carry order.
pub open spec fn unload_list(carried: Seq<usize>, packages: Seq<Package>, s: usize) -> Seq<usize>
    decreases carried.len(),
{
    if carried.len() == 0 {
        Seq::empty()
    } else if packages[carried.first() as int].end == s {
        seq![carried.first()] + unload_list(carried.drop_first(), packages, s)
    } else {
        unload_list(carried.drop_first(), packages, s)
    }
}

/// The packages the train keeps past station `s`: destination elsewhere, in
/// carry order.
pub open spec fn keep_list(carried: Seq<usize>, packages: Seq<Package>, s: usize) -> Seq<usize>
    decreases carried.len(),
{
    if carried.len() == 0 {
        Seq::empty()
    } else if packages[carried.first() as int].end == s {
        keep_list(carried.drop_first(), packages, s)
    } else {
        seq![carried.first()] + keep_list(carried.drop_first(), packages, s)
    }
}

/// Greedy loading: scan the waiting list in order and take every package
/// that is not yet delivered and still fits within the remaining capacity.
pub open spec fn greedy_loaded(
    waiting: Seq<usize>,
    packages: Seq<Package>,
    capacity: u64,
    load: int,
) -> Seq<usize>
    decreases waiting.len(),
{
    if waiting.len() == 0 {
        Seq::empty()
    } else if !packages[waiting.first() as int].arrived && load + packages[waiting.first() as int].weight
        <= capacity {
        seq![waiting.first()] + greedy_loaded(
            waiting.drop_first(),
            packages,
            capacity,
            load + packages[waiting.first() as int].weight,
        )
    } else {
        greedy_loaded(waiting.drop_first(), packages, capacity, load)
    }
}

/// The packages the greedy load leaves waiting at the station, in order.
pub open spec fn greedy_left(
    waiting: Seq<usize>,
    packages: Seq<Package>,
    capacity: u64,
    load: int,
) -> Seq<usize>
    decreases waiting.len(),
{
    if waiting.len() == 0 {
        Seq::empty()
    } else if !packages[waiting.first() as int].arrived && load + packages[waiting.first() as int].weight
        <= capacity {
        greedy_left(
            waiting.drop_first(),
            packages,
            capacity,
            load + packages[waiting.first() as int].weight,
        )
    } else {
        seq![waiting.first()] + greedy_left(waiting.drop_first(), packages, capacity, load)
    }
}

/// The names of the packages listed in `l`.
pub open spec fn names_of(l: Seq<usize>, packages: Seq<Package>) -> Seq<String> {
    l.map_values(|p: usize| packages[p as int].name)
}

/// Unloading splits the cargo exactly: every carried package either leaves
/// here or stays aboard, and none appears or vanishes.
pub proof fn lemma_unload_keep_partition(carried: Seq<usize>, packages: Seq<Package>, s: usize)
    ensures
        unload_list(carried, packages, s).to_multiset().add(
            keep_list(carried, packages, s).to_multiset(),
        ) == carried.to_multiset(),
    decreases carried.len(),
{
    broadcast use vstd::seq_lib::group_to_multiset_ensures;
    broadcast use vstd::multiset::group_multiset_axioms;

    if carried.len() == 0 {
        assert(unload_list(carried, packages, s).to_multiset().add(
            keep_list(carried, packages, s).to_multiset(),
        ) =~= carried.to_multiset());
    } else {
        let first = carried.first();
        let rest = carried.drop_first();
        lemma_unload_keep_partition(rest, packages, s);
        assert(carried.remove(0) =~= rest);
        assert(rest.to_multiset() == carried.to_multiset().remove(first));
        assert(carried.to_multiset().count(first) > 0) by {
            assert(carried.contains(first));
        }
        assert(rest.to_multiset().insert(first) =~= carried.to_multiset());
        if packages[first as int].end == s {
            vstd::seq_lib::lemma_multiset_commutative(
                seq![first],
                unload_list(rest, packages, s),
            );
            assert(seq![first].to_multiset() =~= Multiset::empty().insert(first));
            assert(unload_list(carried, packages, s).to_multiset().add(
                keep_list(carried, packages, s).to_multiset(),
            ) =~= carried.to_multiset());
        } else {
            vstd::seq_lib::lemma_multiset_commutative(seq![first], keep_list(rest, packages, s));
            assert(seq![first].to_multiset() =~= Multiset::empty().insert(first));
            assert(unload_list(carried, packages, s).to_multiset().add(
                keep_list(carried, packages, s).to_multiset(),
            ) =~= carried.to_multiset());
        }
    }
}

/// Greedy loading splits the waiting pool exactly: every waiting package is
/// either taken aboard or left behind, and none appears or vanishes.
pub proof fn lemma_greedy_partition(
    waiting: Seq<usize>,
    packages: Seq<Package>,
    capacity: u64,
    load: int,
)
    ensures
        greedy_loaded(waiting, packages, capacity, load).to_multiset().add(
            greedy_left(waiting, packages, capacity, load).to_multiset(),
        ) == waiting.to_multiset(),
    decreases waiting.len(),
{
    broadcast use vstd::seq_lib::group_to_multiset_ensures;
    broadcast use vstd::multiset::group_multiset_axioms;

    if waiting.len() == 0 {
        assert(greedy_loaded(waiting, packages, capacity, load).to_multiset().add(
            greedy_left(waiting, packages, capacity, load).to_multiset(),
        ) =~= waiting.to_multiset());
    } else {
        let first = waiting.first();
        let rest = waiting.drop_first();
        assert(waiting.remove(0) =~= rest);
        assert(rest.to_multiset() == waiting.to_multiset().remove(first));
        assert(waiting.to_multiset().count(first) > 0) by {
            assert(waiting.contains(first));
        }
        assert(rest.to_multiset().insert(first) =~= waiting.to_multiset());
        if !packages[first as int].arrived && load + packages[first as int].weight <= capacity {
            lemma_greedy_partition(rest, packages, capacity, load + packages[first as int].weight);
            vstd::seq_lib::lemma_multiset_commutative(
                seq![first],
                greedy_loaded(rest, packages, capacity, load + packages[first as int].weight),
            );
            assert(seq![first].to_multiset() =~= Multiset::empty().insert(first));
            assert(greedy_loaded(waiting, packages, capacity, load).to_multiset().add(
                greedy_left(waiting, packages, capacity, load).to_multiset(),
            ) =~= waiting.to_multiset());
        } else {
            lemma_greedy_partition(rest, packages, capacity, load);
            vstd::seq_lib::lemma_multiset_commutative(
                seq![first],
                greedy_left(rest, packages, capacity, load),
            );
            assert(seq![first].to_multiset() =~= Multiset::empty().insert(first));
            assert(greedy_loaded(waiting, packages, capacity, load).to_multiset().add(
                greedy_left(waiting, packages, capacity, load).to_multiset(),
            ) =~= waiting.to_multiset());
        }
    }
}

/// A journey record whose arrival half has been filled in.
pub open spec fn history_closed(h: History) -> bool {
    h.n2@.len() > 0
}

/// The journey log never has more than one record awaiting its arrival (the
/// last one), and a stopped train's log is fully closed: the record of the
/// leg it never took has been pruned.
pub open spec fn history_wf(t: Train) -> bool {
    &&& forall|i: int| 0 <= i < t.history@.len() - 1 ==> history_closed(#[trigger] t.history@[i])
    &&& t.end_trip ==> forall|i: int|
        0 <= i < t.history@.len() ==> history_closed(#[trigger] t.history@[i])
}

/// `h` is `h0` with its arrival half filled in: reached station `n2`,
/// unloaded the packages named `p2`.
pub open spec fn closed_record(h: History, h0: History, n2: String, p2: Seq<String>) -> bool {
    &&& h.w == h0.w
    &&& h.t == h0.t
    &&& h.n1 == h0.n1
    &&& h.p1 == h0.p1
    &&& h.n2 == n2
    &&& h.p2@ == p2
}

/// A freshly opened journey record: train `t` departed station `n1` at time
/// `w` having loaded the packages named `p1`; the arrival half is empty.
pub open spec fn opened_record(h: History, w: u64, t: String, n1: String, p1: Seq<String>) -> bool {
    &&& h.w == w
    &&& h.t == t
    &&& h.n1 == n1
    &&& h.p1@ == p1
    &&& h.n2@ == Seq::<char>::empty()
    &&& h.p2@ == Seq::<String>::empty()
}

/// `post` is `pre` with the previous leg's arrival registered: every record
/// but the last is untouched, and the last — the leg that just ended — is
/// closed with the station reached and the packages unloaded there. An empty
/// log stays empty.
pub open spec fn history_after_arrival(
    pre: Seq<History>,
    post: Seq<History>,
    n2: String,
    p2: Seq<String>,
) -> bool {
    &&& post.len() == pre.len()
    &&& forall|i: int| 0 <= i < pre.len() - 1 ==> post[i] == pre[i]
    &&& pre.len() > 0 ==> closed_record(post[pre.len() - 1], pre.last(), n2, p2)
}

/// Everything one station visit does, per the per-tick station-arrival
/// rules: unload every carried package destined here (it becomes delivered
/// and joins the station's pool), greedily load what waits and fits, close
/// the previous journey record, retarget if the station is critical, and
/// either depart along the first rail toward the route's next hop, or stop
/// and prune the record of the leg never taken. `s` is the station visited;
/// `pre`'s location and elapsed rail time are not consulted (the caller has
/// already parked the train at `s`).
pub open spec fn station_step(
    pre: Train,
    post: Train,
    pre_nodes: Seq<Node>,
    post_nodes: Seq<Node>,
    pre_packages: Seq<Package>,
    post_packages: Seq<Package>,
    edges: Seq<Edge>,
    s: usize,
    time: u64,
    r: Result<(), SimError>,
) -> bool {
    let node0 = pre_nodes[s as int];
    let dropped = unload_list(pre.package@, pre_packages, s);
    let kept = keep_list(pre.package@, pre_packages, s);
    let mid_pickup = node0.pick_up_package@ + dropped;
    let mid_load = load_of(pre_packages, kept);
    let loaded = greedy_loaded(mid_pickup, post_packages, pre.capacity, mid_load);
    let left = greedy_left(mid_pickup, post_packages, pre.capacity, mid_load);
    let crit = node0.critical || dropped.len() > 0;
    let hop = route_next(post.route@, s);
    // Packages: exactly the unloaded ones become delivered.
    &&& post_packages.len() == pre_packages.len()
    &&& (forall|p: int|
        0 <= p < pre_packages.len() ==> post_packages[p] == (Package {
            arrived: pre_packages[p].arrived || dropped.contains(p as usize),
            ..pre_packages[p]
        }))
    // Stations: only `s` changes; it holds what was left after the exchange.
    &&& post_nodes.len() == pre_nodes.len()
    &&& (forall|i: int| 0 <= i < pre_nodes.len() && i != s ==> post_nodes[i] == pre_nodes[i])
    &&& post_nodes[s as int] == (Node {
        pick_up_package: post_nodes[s as int].pick_up_package,
        critical: crit,
        ..node0
    })
    &&& post_nodes[s as int].pick_up_package@ == left
    // The train's cargo and load.
    &&& post.name == pre.name
    &&& post.capacity == pre.capacity
    &&& post.package@ == kept + loaded
    &&& post.load == load_of(post_packages, kept + loaded)
    // The route: retargeted at a critical station, untouched elsewhere.
    &&& if crit {
        chosen_route(
            kept + loaded,
            post.load,
            pre.capacity,
            post_nodes,
            post_packages,
            node0.shortest_path_to_other_critical_nodes@,
            post.route@,
        )
    } else {
        post.route == pre.route
    }
    // The outcome: depart along the first rail toward the next hop, stop for
    // want of one, or fail because the route names a hop no rail reaches.
    &&& match hop {
        Some(nx) => {
            if exists|i: int|
                0 <= i < node0.edge@.len() && edges[node0.edge@[i] as int].node2 == nx {
                &&& r is Ok
                &&& (exists|i: int|
                    {
                        &&& 0 <= i < node0.edge@.len()
                        &&& edges[node0.edge@[i] as int].node2 == nx
                        &&& forall|k: int|
                            0 <= k < i ==> edges[node0.edge@[k] as int].node2 != nx
                        &&& post.location == Location::Edge(node0.edge@[i])
                    })
                &&& post.time == 1
                &&& !post.end_trip
                &&& post.history@.len() == pre.history@.len() + 1
                &&& history_after_arrival(
                    pre.history@,
                    post.history@.subrange(0, pre.history@.len() as int),
                    node0.name,
                    names_of(dropped, pre_packages),
                )
                &&& opened_record(
                    post.history@.last(),
                    time,
                    pre.name,
                    node0.name,
                    names_of(loaded, pre_packages),
                )
            } else {
                &&& r == Err::<(), SimError>(SimError::EdgeNotFound)
                &&& post.location == Location::Node(s)
                &&& post.time == 0
                &&& !post.end_trip
                &&& post.history@.len() == pre.history@.len()
                &&& history_after_arrival(
                    pre.history@,
                    post.history@,
                    node0.name,
                    names_of(dropped, pre_packages),
                )
            }
        },
        None => {
            &&& r is Ok
            &&& post.location == Location::Node(s)
            &&& post.time == 0
            &&& post.end_trip
            &&& post.history@.len() == pre.history@.len()
            &&& history_after_arrival(
                pre.history@,
                post.history@,
                node0.name,
                names_of(dropped, pre_packages),
            )
        },
    }
}

/// Conservation of packages across one station visit: the train and the
/// station it stands at exchange packages but together hold exactly what
/// they held before, while every other station is untouched — so a package
/// always has exactly one holder.
pub proof fn lemma_station_step_conserves_packages(
    pre: Train,
    post: Train,
    pre_nodes: Seq<Node>,
    post_nodes: Seq<Node>,
    pre_packages: Seq<Package>,
    post_packages: Seq<Package>,
    edges: Seq<Edge>,
    s: usize,
    time: u64,
    r: Result<(), SimError>,
)
    requires
        station_step(
            pre,
            post,
            pre_nodes,
            post_nodes,
            pre_packages,
            post_packages,
            edges,
            s,
            time,
            r,
        ),
        s < pre_nodes.len(),
    ensures
        post.package@.to_multiset().add(post_nodes[s as int].pick_up_package@.to_multiset())
            == pre.package@.to_multiset().add(
            pre_nodes[s as int].pick_up_package@.to_multiset(),
        ),
        forall|i: int|
            0 <= i < pre_nodes.len() && i != s ==> post_nodes[i].pick_up_package@
                == pre_nodes[i].pick_up_package@,
{
    broadcast use vstd::multiset::group_multiset_axioms;

    let node0 = pre_nodes[s as int];
    let dropped = unload_list(pre.package@, pre_packages, s);
    let kept = keep_list(pre.package@, pre_packages, s);
    let mid_pickup = node0.pick_up_package@ + dropped;
    let mid_load = load_of(pre_packages, kept);
    let loaded = greedy_loaded(mid_pickup, post_packages, pre.capacity, mid_load);
    let left = greedy_left(mid_pickup, post_packages, pre.capacity, mid_load);
    lemma_unload_keep_partition(pre.package@, pre_packages, s);
    lemma_greedy_partition(mid_pickup, post_packages, pre.capacity, mid_load);
    vstd::seq_lib::lemma_multiset_commutative(kept, loaded);
    vstd::seq_lib::lemma_multiset_commutative(node0.pick_up_package@, dropped);
    assert(post.package@ == kept + loaded);
    assert(post_nodes[s as int].pick_up_package@ == left);
    assert(post.package@.to_multiset() == kept.to_multiset().add(loaded.to_multiset()));
    assert(mid_pickup.to_multiset() == node0.pick_up_package@.to_multiset().add(
        dropped.to_multiset(),
    ));
    assert(loaded.to_multiset().add(left.to_multiset()) == mid_pickup.to_multiset());
    assert(dropped.to_multiset().add(kept.to_multiset()) == pre.package@.to_multiset());
    assert forall|x: usize|
        post.package@.to_multiset().add(post_nodes[s as int].pick_up_package@.to_multiset()).count(
            x,
        ) == pre.package@.to_multiset().add(
            pre_nodes[s as int].pick_up_package@.to_multiset(),
        ).count(x) by {
        assert(post.package@.to_multiset().count(x) == kept.to_multiset().count(x)
            + loaded.to_multiset().count(x));
        assert(loaded.to_multiset().count(x) + left.to_multiset().count(x)
            == mid_pickup.to_multiset().count(x));
        assert(mid_pickup.to_multiset().count(x) == node0.pick_up_package@.to_multiset().count(x)
            + dropped.to_multiset().count(x));
        assert(dropped.to_multiset().count(x) + kept.to_multiset().count(x)
            == pre.package@.to_multiset().count(x));
    }
    assert(post.package@.to_multiset().add(post_nodes[s as int].pick_up_package@.to_multiset())
        =~= pre.package@.to_multiset().add(pre_nodes[s as int].pick_up_package@.to_multiset()));
}

impl Train {
    pub fn new(name: String, capacity: u64, location: usize) -> (t: Train)
        ensures
            t.name == name,
            t.capacity == capacity,
            t.load == 0,
            t.package@ == Seq::<usize>::empty(),
            t.location == Location::Node(location),
            t.route@ == Seq::<Option<usize>>::empty(),
            t.time == 0,
            t.history@ == Seq::<History>::empty(),
            !t.end_trip,
    {
        Train {
            name,
            capacity,
            load: 0,
            package: Vec::new(),
            location: Location::Node(location),
            route: Vec::new(),
            time: 0,
            history: Vec::new(),
            end_trip: false,
        }
    }

    pub fn get_name(&self) -> (r: String)
        ensures
            r == self.name,
    {
        self.name.clone()
    }

    pub fn get_capacity(&self) -> (r: u64)
        ensures
            r == self.capacity,
    {
        self.capacity
    }

    pub fn get_location(&self) -> (r: &Location)
        ensures
            r == self.location,
    {
        &self.location
    }

    /// Adopt a new target. At a station, scan its ranked shortest-path table
    /// nearest-first and adopt the predecessor map of the first entry whose
    /// destination either wants one of the carried packages or offers an
    /// undelivered, weight-fitting package to pick up; leave the route empty
    /// when no entry qualifies, or when the train is mid-rail.
    pub fn find_new_target(&mut self, nodes: &Vec<Node>, packages: &Vec<Package>)
        requires
            old(self).load <= old(self).capacity,
            crate::node::nodes_refs_wf(nodes@, packages@.len() as int),
            match old(self).location {
                Location::Node(s) => s < nodes@.len(),
                Location::Edge(_) => true,
            },
        ensures
            *final(self) == (Train { route: final(self).route, ..*old(self) }),
            match old(self).location {
                Location::Edge(_) => final(self).route@.len() == 0,
                Location::Node(s) => chosen_route(
                    old(self).package@,
                    old(self).load,
                    old(self).capacity,
                    nodes@,
                    packages@,
                    nodes@[s as int].shortest_path_to_other_critical_nodes@,
                    final(self).route@,
                ),
            },
            forall|i: int|
                0 <= i < final(self).route@.len() ==> (final(self).route@[i] is Some
                    ==> final(self).route@[i].unwrap() < nodes@.len()),
    {
        self.route = Vec::new();
        match self.location {
            Location::Edge(_) => {},
            Location::Node(s) => {
                let entries = nodes[s].get_shortest_path();
                let n_entries = entries.len();
                let mut i: usize = 0;
                while i < n_entries
                    invariant
                        i <= n_entries,
                        n_entries == entries@.len(),
                        old(self).location == Location::Node(s),
                        entries@ == nodes@[s as int].shortest_path_to_other_critical_nodes@,
                        s < nodes@.len(),
                        crate::node::nodes_refs_wf(nodes@, packages@.len() as int),
                        *self == (Train { route: self.route, ..*old(self) }),
                        self.route@.len() == 0,
                        self.load <= self.capacity,
                        forall|m: int|
                            0 <= m < i ==> !entry_serves(
                                self.package@,
                                self.load,
                                self.capacity,
                                nodes@,
                                packages@,
                                entries@[m],
                            ),
                    decreases n_entries - i,
                {
                    let c = &entries[i];
                    proof {
                        assert(crate::node::node_refs_wf(
                            nodes@[s as int],
                            nodes@.len() as int,
                            packages@.len() as int,
                        ));
                    }
                    if serves_here(&self.package, self.load, self.capacity, nodes, packages, c) {
                        self.route = crate::node::copy_path(&c.path);
                        proof {
                            assert(crate::node::spc_wf(entries@[i as int], nodes@.len() as int));
                            assert(entry_serves(
                                old(self).package@,
                                old(self).load,
                                old(self).capacity,
                                nodes@,
                                packages@,
                                entries@[i as int],
                            ));
                            assert(chosen_route(
                                old(self).package@,
                                old(self).load,
                                old(self).capacity,
                                nodes@,
                                packages@,
                                entries@,
                                self.route@,
                            ));
                        }
                        return;
                    }
                    i += 1;
                }
                proof {
                    assert(forall|m: int|
                        0 <= m < entries@.len() ==> !entry_serves(
                            old(self).package@,
                            old(self).load,
                            old(self).capacity,
                            nodes@,
                            packages@,
                            entries@[m],
                        ));
                }
            },
        }
    }

    /// Advance this train by one tick of simulated time `time`. Mid-rail it
    /// moves one tick further, arriving when the rail's duration is spent;
    /// at a station it unloads, loads, logs the leg, retargets if the
    /// station is critical, and departs toward the next hop or stops for
    /// want of one (`station_step` states the visit exactly). A stopped
    /// train never changes anything. Fails with `EdgeNotFound` only when the
    /// adopted route names a hop that no rail out of the station reaches.
    #[verifier::rlimit(100)]
    pub fn deliver(
        &mut self,
        time: u64,
        nodes: &mut Vec<Node>,
        edges: &Vec<Edge>,
        packages: &mut Vec<Package>,
    ) -> (r: Result<(), SimError>)
        requires
            train_wf(
                *old(self),
                old(nodes)@.len() as int,
                edges@.len() as int,
                old(packages)@,
            ),
            crate::node::nodes_refs_wf(old(nodes)@, old(packages)@.len() as int),
            crate::node::nodes_edges_wf(old(nodes)@, edges@.len() as int),
            crate::edge::edges_wf(edges@, old(nodes)@.len() as int),
            crate::node::edges_registered(old(nodes)@, edges@),
        ensures
            train_wf(
                *final(self),
                old(nodes)@.len() as int,
                edges@.len() as int,
                final(packages)@,
            ),
            crate::node::nodes_refs_wf(final(nodes)@, old(packages)@.len() as int),
            crate::node::nodes_edges_wf(final(nodes)@, edges@.len() as int),
            final(nodes)@.len() == old(nodes)@.len(),
            final(packages)@.len() == old(packages)@.len(),
            forall|i: int|
                0 <= i < old(nodes)@.len() ==> final(nodes)@[i].name == old(nodes)@[i].name,
            forall|i: int|
                0 <= i < old(nodes)@.len() ==> final(nodes)@[i].edge@ == old(nodes)@[i].edge@,
            forall|i: int|
                0 <= i < old(nodes)@.len() ==> final(nodes)@[i].shortest_path_to_other_critical_nodes@
                    == old(nodes)@[i].shortest_path_to_other_critical_nodes@,
            crate::node::edges_registered(final(nodes)@, edges@),
            final(self).name == old(self).name,
            final(self).capacity == old(self).capacity,
            r is Err ==> r == Err::<(), SimError>(SimError::EdgeNotFound),
            // A failed tick leaves the train parked, pointing along a hop no
            // rail serves.
            r is Err ==> train_stuck(*final(self), final(nodes)@, edges@),
            // When the adopted route and every route table step only along
            // existing rails, the tick cannot fail, and the route it leaves
            // behind steps along existing rails too.
            (crate::node::hops_ok(old(self).route@, edges@) && crate::node::tables_ok(
                old(nodes)@,
                edges@,
            )) ==> ((r is Ok) && crate::node::hops_ok(final(self).route@, edges@)),
            forall|p: int|
                0 <= p < old(packages)@.len() ==> {
                    &&& final(packages)@[p].name == old(packages)@[p].name
                    &&& final(packages)@[p].weight == old(packages)@[p].weight
                    &&& final(packages)@[p].start == old(packages)@[p].start
                    &&& final(packages)@[p].end == old(packages)@[p].end
                    &&& (old(packages)@[p].arrived ==> final(packages)@[p].arrived)
                },
            old(self).end_trip ==> (*final(self) == *old(self) && final(nodes)@ == old(nodes)@
                && final(packages)@ == old(packages)@ && (r is Ok)),
            (match old(self).location {
                Location::Edge(e) => (!old(self).end_trip && old(self).time < edges@[e as int].journey_time) ==> (
                    *final(self) == (Train { time: (old(self).time + 1) as u64, ..*old(self) })
                        && final(nodes)@ == old(nodes)@ && final(packages)@ == old(packages)@
                        && (r is Ok)),
                Location::Node(_) => true,
            }),
            (match old(self).location {
                Location::Edge(e) => (!old(self).end_trip && old(self).time >= edges@[e as int].journey_time) ==> station_step(
                    *old(self),
                    *final(self),
                    old(nodes)@,
                    final(nodes)@,
                    old(packages)@,
                    final(packages)@,
                    edges@,
                    edges@[e as int].node2,
                    time,
                    r,
                ),
                Location::Node(_) => true,
            }),
            (match old(self).location {
                Location::Node(s) => !old(self).end_trip ==> station_step(
                    *old(self),
                    *final(self),
                    old(nodes)@,
                    final(nodes)@,
                    old(packages)@,
                    final(packages)@,
                    edges@,
                    s,
                    time,
                    r,
                ),
                Location::Edge(_) => true,
            }),
            (history_wf(*old(self)) && (forall|i: int|
                0 <= i < old(nodes)@.len() ==> old(nodes)@[i].name@.len() > 0)) ==> history_wf(
                *final(self),
            ),
    {
        if self.end_trip {
            return Ok(());
        }
        let s: usize;
        match self.location {
            Location::Edge(e) => {
                let jt = edges[e].get_journey_time();
                if self.time < jt {
                    self.time = self.time + 1;
                    return Ok(());
                }
                self.time = 0;
                s = edges[e].get_end_node();
                self.location = Location::Node(s);
            },
            Location::Node(n) => {
                s = n;
            },
        }
        // The train is now parked at station `s`; run the station-arrival
        // rules there.
        let ghost t0 = *self;
        let ghost pre_pkgs = packages@;
        let ghost all_nodes = nodes@;
        let n_pkg = packages.len();
        let n_edge = edges.len();
        proof {
            assert(n_pkg == pre_pkgs.len());
            assert(crate::node::node_refs_wf(
                all_nodes[s as int],
                all_nodes.len() as int,
                pre_pkgs.len() as int,
            ));
            assert(crate::node::node_edges_wf(all_nodes[s as int], edges@.len() as int));
        }
        let mut node_s = nodes.remove(s);
        let ghost node0 = node_s;

        // Unload: every carried package destined here leaves the train,
        // becomes delivered, and joins the station's pool.
        let mut kept: Vec<usize> = Vec::new();
        let mut dropped_names: Vec<String> = Vec::new();
        let ghost mut dropped_idx: Seq<usize> = Seq::empty();
        let n_car = self.package.len();
        proof {
            assert(t0.package@.subrange(0, n_car as int) =~= t0.package@);
            assert(dropped_idx + unload_list(t0.package@, pre_pkgs, s)
                =~= unload_list(t0.package@, pre_pkgs, s));
            assert(kept@ + keep_list(t0.package@, pre_pkgs, s)
                =~= keep_list(t0.package@, pre_pkgs, s));
            assert(names_of(dropped_idx, pre_pkgs) =~= Seq::<String>::empty());
            assert(node0.pick_up_package@ + dropped_idx =~= node0.pick_up_package@);
        }
        let mut i: usize = 0;
        while i < n_car
            invariant
                i <= n_car,
                n_car == t0.package@.len(),
                pre_pkgs.len() <= usize::MAX,
                *self == (Train { load: self.load, ..t0 }),
                forall|k: int| 0 <= k < t0.package@.len() ==> t0.package@[k] < pre_pkgs.len(),
                unload_list(t0.package@, pre_pkgs, s) == dropped_idx + unload_list(
                    t0.package@.subrange(i as int, n_car as int),
                    pre_pkgs,
                    s,
                ),
                keep_list(t0.package@, pre_pkgs, s) == kept@ + keep_list(
                    t0.package@.subrange(i as int, n_car as int),
                    pre_pkgs,
                    s,
                ),
                forall|k: int| 0 <= k < dropped_idx.len() ==> dropped_idx[k] < pre_pkgs.len(),
                forall|k: int| 0 <= k < kept@.len() ==> kept@[k] < pre_pkgs.len(),
                dropped_names@ == names_of(dropped_idx, pre_pkgs),
                packages@.len() == pre_pkgs.len(),
                forall|q: int|
                    0 <= q < pre_pkgs.len() ==> packages@[q] == (Package {
                        arrived: pre_pkgs[q].arrived || dropped_idx.contains(q as usize),
                        ..pre_pkgs[q]
                    }),
                self.load == load_of(pre_pkgs, kept@) + load_of(
                    pre_pkgs,
                    t0.package@.subrange(i as int, n_car as int),
                ),
                self.load <= t0.load,
                node_s == (Node {
                    pick_up_package: node_s.pick_up_package,
                    critical: node_s.critical,
                    ..node0
                }),
                node_s.pick_up_package@ == node0.pick_up_package@ + dropped_idx,
                node_s.critical == (node0.critical || dropped_idx.len() > 0),
            decreases n_car - i,
        {
            let ghost suffix = t0.package@.subrange(i as int, n_car as int);
            proof {
                assert(suffix.first() == t0.package@[i as int]);
                assert(suffix.drop_first() =~= t0.package@.subrange(i + 1, n_car as int));
            }
            let p = self.package[i];
            let ghost pk_before = packages@;
            if packages[p].get_end_node() == s {
                let w = packages[p].get_weight();
                proof {
                    lemma_load_of_nonneg(pre_pkgs, kept@);
                    lemma_load_of_nonneg(pre_pkgs, suffix.drop_first());
                    assert(pre_pkgs[p as int].weight == w);
                }
                self.load = self.load - w;
                arrive_at(packages, p);
                node_s.add_pick_up_package(p);
                dropped_names.push(packages[p].get_name());
                proof {
                    let d2 = dropped_idx.push(p);
                    assert(d2 + unload_list(suffix.drop_first(), pre_pkgs, s) =~= dropped_idx + (
                    seq![p] + unload_list(suffix.drop_first(), pre_pkgs, s)));
                    assert(names_of(d2, pre_pkgs) =~= names_of(dropped_idx, pre_pkgs).push(
                        pre_pkgs[p as int].name,
                    ));
                    assert(node0.pick_up_package@ + d2 =~= (node0.pick_up_package@ + dropped_idx).push(
                    p));
                    assert(packages@ == pk_before.update(
                        p as int,
                        (Package { arrived: true, ..pk_before[p as int] }),
                    ));
                    assert forall|q: int| 0 <= q < pre_pkgs.len() implies packages@[q] == (Package {
                        arrived: pre_pkgs[q].arrived || d2.contains(q as usize),
                        ..pre_pkgs[q]
                    }) by {
                        let qu = q as usize;
                        if qu == p {
                            assert(d2[d2.len() - 1] == qu);
                            assert(d2.contains(qu));
                            assert(pk_before[q] == (Package {
                                arrived: pre_pkgs[q].arrived || dropped_idx.contains(qu),
                                ..pre_pkgs[q]
                            }));
                        } else {
                            assert(packages@[q] == pk_before[q]);
                            if dropped_idx.contains(qu) {
                                let w0 = choose|w0: int|
                                    0 <= w0 < dropped_idx.len() && dropped_idx[w0] == qu;
                                assert(d2[w0] == qu);
                                assert(d2.contains(qu));
                            }
                            if d2.contains(qu) {
                                let w0 = choose|w0: int| 0 <= w0 < d2.len() && d2[w0] == qu;
                                assert(dropped_idx[w0] == qu);
                                assert(dropped_idx.contains(qu));
                            }
                        }
                    }
                    assert(load_of(pre_pkgs, suffix) == w + load_of(
                        pre_pkgs,
                        suffix.drop_first(),
                    ));
                    dropped_idx = d2;
                }
            } else {
                let ghost old_kept = kept@;
                kept.push(p);
                proof {
                    assert(kept@ == old_kept.push(p));
                    assert(kept@ + keep_list(suffix.drop_first(), pre_pkgs, s) =~= old_kept + (
                    seq![p] + keep_list(suffix.drop_first(), pre_pkgs, s)));
                    lemma_load_of_push(pre_pkgs, old_kept, p);
                }
            }
            i += 1;
        }
        proof {
            assert(t0.package@.subrange(n_car as int, n_car as int) =~= Seq::<usize>::empty());
            assert(dropped_idx == unload_list(t0.package@, pre_pkgs, s));
            assert(kept@ == keep_list(t0.package@, pre_pkgs, s));
        }
        self.package = kept;

        // Close the record of the leg that just ended, if there is one.
        let cur_name = node_s.get_name();
        if self.history.len() >= 1 {
            let li = self.history.len() - 1;
            let rec = vstd::std_specs::vec::vec_index_mut(&mut self.history, li);
            rec.register_arrival(cur_name, dropped_names);
        }

        // Load: scan what now waits here, in order, and take every package
        // that is not delivered and still fits.
        let ghost post_pkgs = packages@;
        let ghost mid_pickup = node_s.pick_up_package@;
        let ghost mid_load = self.load as int;
        let ghost t1 = *self;
        proof {
            assert(self.load <= self.capacity);
            assert(history_after_arrival(
                t0.history@,
                t1.history@,
                node0.name,
                names_of(dropped_idx, pre_pkgs),
            ));
        }
        let avail = node_s.get_package();
        proof {
            assert forall|k: int| 0 <= k < avail@.len() implies avail@[k] < post_pkgs.len() by {
                if k < node0.pick_up_package@.len() {
                    assert(avail@[k] == node0.pick_up_package@[k]);
                } else {
                    assert(avail@[k] == dropped_idx[k - node0.pick_up_package@.len()]);
                }
            }
        }
        let mut new_pickup: Vec<usize> = Vec::new();
        let mut loaded_names: Vec<String> = Vec::new();
        let ghost mut loaded_idx: Seq<usize> = Seq::empty();
        let m = avail.len();
        proof {
            lemma_load_of_same_weights(pre_pkgs, post_pkgs, kept@);
            assert(avail@.subrange(0, m as int) =~= avail@);
            assert(loaded_idx + greedy_loaded(mid_pickup, post_pkgs, t0.capacity, mid_load)
                =~= greedy_loaded(mid_pickup, post_pkgs, t0.capacity, mid_load));
            assert(new_pickup@ + greedy_left(mid_pickup, post_pkgs, t0.capacity, mid_load)
                =~= greedy_left(mid_pickup, post_pkgs, t0.capacity, mid_load));
            assert(names_of(loaded_idx, pre_pkgs) =~= Seq::<String>::empty());
            assert(t1.package@ + loaded_idx =~= t1.package@);
            lemma_load_of_same_weights(pre_pkgs, post_pkgs, t1.package@);
        }
        let mut j: usize = 0;
        while j < m
            invariant
                j <= m,
                m == avail@.len(),
                pre_pkgs.len() <= usize::MAX,
                avail@ == mid_pickup,
                t1 == (Train {
                    load: t1.load,
                    package: t1.package,
                    history: t1.history,
                    ..t0
                }),
                *self == (Train { load: self.load, package: self.package, ..t1 }),
                self.load <= self.capacity,
                packages@ == post_pkgs,
                post_pkgs.len() == pre_pkgs.len(),
                forall|q: int|
                    0 <= q < pre_pkgs.len() ==> post_pkgs[q] == (Package {
                        arrived: pre_pkgs[q].arrived || dropped_idx.contains(q as usize),
                        ..pre_pkgs[q]
                    }),
                forall|k: int| 0 <= k < avail@.len() ==> avail@[k] < post_pkgs.len(),
                forall|k: int| 0 <= k < self.package@.len() ==> self.package@[k] < post_pkgs.len(),
                greedy_loaded(mid_pickup, post_pkgs, t0.capacity, mid_load) == loaded_idx
                    + greedy_loaded(
                    avail@.subrange(j as int, m as int),
                    post_pkgs,
                    t0.capacity,
                    self.load as int,
                ),
                greedy_left(mid_pickup, post_pkgs, t0.capacity, mid_load) == new_pickup@
                    + greedy_left(
                    avail@.subrange(j as int, m as int),
                    post_pkgs,
                    t0.capacity,
                    self.load as int,
                ),
                forall|k: int| 0 <= k < new_pickup@.len() ==> new_pickup@[k] < post_pkgs.len(),
                self.package@ == t1.package@ + loaded_idx,
                self.load == load_of(post_pkgs, self.package@),
                loaded_names@ == names_of(loaded_idx, pre_pkgs),
                self.capacity == t0.capacity,
            decreases m - j,
        {
            let ghost suffix = avail@.subrange(j as int, m as int);
            proof {
                assert(suffix.first() == avail@[j as int]);
                assert(suffix.drop_first() =~= avail@.subrange(j + 1, m as int));
            }
            let p = avail[j];
            let w = packages[p].get_weight();
            if !packages[p].get_arrived() && w <= self.capacity - self.load {
                let ghost old_list = self.package@;
                self.package.push(p);
                proof {
                    assert(self.package@ == old_list.push(p));
                    lemma_load_of_push(post_pkgs, old_list, p);
                }
                self.load = self.load + w;
                loaded_names.push(packages[p].get_name());
                proof {
                    let l2 = loaded_idx.push(p);
                    assert(l2 + greedy_loaded(suffix.drop_first(), post_pkgs, t0.capacity, self.load as int)
                        =~= loaded_idx + (seq![p] + greedy_loaded(
                        suffix.drop_first(),
                        post_pkgs,
                        t0.capacity,
                        self.load as int,
                    )));
                    assert(names_of(l2, pre_pkgs) =~= names_of(loaded_idx, pre_pkgs).push(
                        pre_pkgs[p as int].name,
                    ));
                    assert(t1.package@ + l2 =~= (t1.package@ + loaded_idx).push(p));
                    loaded_idx = l2;
                }
            } else {
                new_pickup.push(p);
                proof {
                    assert(new_pickup@ + greedy_left(suffix.drop_first(), post_pkgs, t0.capacity, self.load as int)
                        =~= new_pickup@.drop_last() + (seq![p] + greedy_left(
                        suffix.drop_first(),
                        post_pkgs,
                        t0.capacity,
                        self.load as int,
                    )));
                }
            }
            j += 1;
        }
        proof {
            assert(avail@.subrange(m as int, m as int) =~= Seq::<usize>::empty());
            assert(loaded_idx == greedy_loaded(mid_pickup, post_pkgs, t0.capacity, mid_load));
            assert(new_pickup@ == greedy_left(mid_pickup, post_pkgs, t0.capacity, mid_load));
        }
        node_s.pick_up_package = new_pickup;

        // Put the station back and retarget if it is critical.
        let crit = node_s.is_critical();
        let ghost node_after = node_s;
        nodes.insert(s, node_s);
        proof {
            assert(nodes@ =~= all_nodes.update(s as int, node_after));
            assert forall|k: int| 0 <= k < nodes@.len() implies crate::node::node_refs_wf(
                nodes@[k],
                nodes@.len() as int,
                packages@.len() as int,
            ) by {
                assert(crate::node::node_refs_wf(
                    all_nodes[k],
                    all_nodes.len() as int,
                    pre_pkgs.len() as int,
                ));
            }
        }
        if crit {
            self.find_new_target(nodes, packages);
        }

        // Follow the adopted route: look up this station's next hop.
        proof {
            assert forall|i: int| 0 <= i < all_nodes.len() implies nodes@[i].shortest_path_to_other_critical_nodes@
                == all_nodes[i].shortest_path_to_other_critical_nodes@ by {
                assert(node_after.shortest_path_to_other_critical_nodes@
                    == node0.shortest_path_to_other_critical_nodes@);
            }
            assert forall|e: int|
                0 <= e < edges@.len() implies nodes@[#[trigger] edges@[e].node1 as int].edge@.contains(
                e as usize,
            ) by {
                assert(nodes@[edges@[e].node1 as int].edge@ == all_nodes[edges@[e].node1 as int].edge@);
            }
            // Under walkable routes and tables, whatever route now stands
            // still steps along existing rails.
            if crate::node::hops_ok(t0.route@, edges@) && crate::node::tables_ok(
                all_nodes,
                edges@,
            ) {
                assert(crate::node::hops_ok(self.route@, edges@)) by {
                    if self.route@.len() == 0 {
                    } else if self.route@ == t0.route@ {
                    } else {
                        let entries = nodes@[s as int].shortest_path_to_other_critical_nodes@;
                        let i = choose|i: int|
                            0 <= i < entries.len() && self.route@ == entries[i].path@;
                        assert(crate::node::hops_ok(
                            all_nodes[s as int].shortest_path_to_other_critical_nodes@[i].path@,
                            edges@,
                        ));
                    }
                }
            }
        }
        let hop: Option<usize> = if s < self.route.len() {
            self.route[s]
        } else {
            None
        };
        match hop {
            Some(nx) => {
                proof {
                    assert(node_after.edge@ == node0.edge@);
                    assert(crate::node::node_edges_wf(nodes@[s as int], edges@.len() as int));
                }
                let node_ref: &Node = &nodes[s];
                match node_ref.get_edge(edges, nx) {
                    Ok(e) => {
                        let mut rec = History::new(time, self.get_name());
                        rec.register_departure(node_ref.get_name(), loaded_names);
                        self.history.push(rec);
                        self.time = self.time + 1;
                        self.location = Location::Edge(e);
                        proof {
                            assert(self.history@.subrange(0, t0.history@.len() as int)
                                =~= self.history@.drop_last());
                        }
                        Ok(())
                    },
                    Err(er) => {
                        proof {
                            // The train stands at `s` with a hop no rail of
                            // `s` reaches; under walkable routes this state
                            // is impossible.
                            assert(route_next(self.route@, s) == Some(nx));
                            if crate::node::hops_ok(t0.route@, edges@) && crate::node::tables_ok(
                                all_nodes,
                                edges@,
                            ) {
                                assert(n_edge == edges@.len());
                                assert(s < self.route@.len() && self.route@[s as int] == Some(nx));
                                assert(crate::node::hops_ok(self.route@, edges@));
                                let e0 = choose|e0: int|
                                    0 <= e0 < edges@.len() && edges@[e0].node1 == s as int
                                        && edges@[e0].node2 == nx;
                                assert(0 <= e0 < edges@.len() && edges@[e0].node1 == s as int
                                    && edges@[e0].node2 == nx);
                                assert(nodes@[s as int].edge@.contains(e0 as usize));
                                let j = choose|j: int|
                                    0 <= j < nodes@[s as int].edge@.len() && nodes@[s as int].edge@[j]
                                        == e0 as usize;
                                assert(edges@[nodes@[s as int].edge@[j] as int].node2 != nx);
                                assert(false);
                            }
                        }
                        Err(er)
                    },
                }
            },
            None => {
                self.end_trip = true;
                Ok(())
            },
        }
    }

    /// The full journey log so far, in the order the records were opened.
    pub fn get_history(&self) -> (r: &Vec<History>)
        ensures
            r@ == self.history@,
    {
        &self.history
    }

    /// Whether this train has ended its trip: it found no next hop and will
    /// never move again.
    pub fn is_not_end(&self) -> (r: bool)
        ensures
            r == self.end_trip,
    {
        self.end_trip
    }
}

/// Whether one route-table entry offers this cargo and spare capacity a
/// drop-off or pickup opportunity at its destination.
fn serves_here(
    carried: &Vec<usize>,
    load: u64,
    capacity: u64,
    nodes: &Vec<Node>,
    packages: &Vec<Package>,
    e: &ShortestPathToCritical,
) -> (r: bool)
    requires
        load <= capacity,
        e.destination < nodes@.len(),
        crate::node::node_refs_wf(
            nodes@[e.destination as int],
            nodes@.len() as int,
            packages@.len() as int,
        ),
    ensures
        r == entry_serves(carried@, load, capacity, nodes@, packages@, *e),
{
    let dest = &nodes[e.destination];
    let n_drop = dest.drop_off_package.len();
    let mut j: usize = 0;
    while j < n_drop
        invariant
            j <= n_drop,
            n_drop == dest.drop_off_package@.len(),
            dest == &nodes@[e.destination as int],
            forall|m: int| 0 <= m < j ==> !carried@.contains(dest.drop_off_package@[m]),
        decreases n_drop - j,
    {
        if crate::node::contains_index(carried, dest.drop_off_package[j]) {
            return true;
        }
        j += 1;
    }
    let n_pick = dest.pick_up_package.len();
    let mut j: usize = 0;
    while j < n_pick
        invariant
            j <= n_pick,
            load <= capacity,
            n_pick == dest.pick_up_package@.len(),
            dest == &nodes@[e.destination as int],
            crate::node::node_refs_wf(
                nodes@[e.destination as int],
                nodes@.len() as int,
                packages@.len() as int,
            ),
            !entry_has_drop(carried@, nodes@, *e),
            forall|m: int|
                0 <= m < j ==> {
                    ||| packages@[dest.pick_up_package@[m] as int].arrived
                    ||| load + packages@[dest.pick_up_package@[m] as int].weight > capacity
                },
        decreases n_pick - j,
    {
        let p = dest.pick_up_package[j];
        if !packages[p].get_arrived() && packages[p].get_weight() <= capacity - load {
            return true;
        }
        j += 1;
    }
    false
}

/// Mark the package at arena index `p` as delivered, in place.
fn arrive_at(packages: &mut Vec<Package>, p: usize)
    requires
        p < old(packages)@.len(),
    ensures
        final(packages)@ == old(packages)@.update(
            p as int,
            (Package { arrived: true, ..old(packages)@[p as int] }),
        ),
{
    let pk = vstd::std_specs::vec::vec_index_mut(packages, p);
    pk.arrive();
}

} // verus!
