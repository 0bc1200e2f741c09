//! A directed rail between two stations, with a traversal duration.
use vstd::prelude::*;

verus! {

/// A directed connection from station `node1` to station `node2`. Stations
/// are addressed by their index in the network's station arena. Traversing
/// the edge takes `journey_time` ticks.
pub struct Edge {
    pub name: String,
    pub node1: usize,
    pub node2: usize,
    pub journey_time: u64,
}

impl Edge {
    pub fn new(name: String, n1: usize, n2: usize, jt: u64) -> (e: Edge)
        ensures
            e.name == name,
            e.node1 == n1,
            e.node2 == n2,
            e.journey_time == jt,
    {
        Edge { name, node1: n1, node2: n2, journey_time: jt }
    }

    pub fn get_name(&self) -> (r: String)
        ensures
            r == self.name,
    {
        self.name.clone()
    }

    /// The station this edge leaves from.
    pub fn get_start_node(&self) -> (r: usize)
        ensures
            r == self.node1,
    {
        self.node1
    }

    /// The station this edge arrives at.
    pub fn get_end_node(&self) -> (r: usize)
        ensures
            r == self.node2,
    {
        self.node2
    }

    /// How many ticks a train spends traversing this edge.
    pub fn get_journey_time(&self) -> (r: u64)
        ensures
            r == self.journey_time,
    {
        self.journey_time
    }
}

/// Every edge of the arena points at registered stations.
pub open spec fn edges_wf(edges: Seq<Edge>, n_nodes: int) -> bool {
    forall|i: int|
        0 <= i < edges.len() ==> edges[i].node1 < n_nodes && edges[i].node2 < n_nodes
}

} // verus!
