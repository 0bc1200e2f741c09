//! A package that must travel from its pickup station to its drop-off station.
use vstd::prelude::*;

verus! {

/// A deliverable item. `start` and `end` are indices into the network's
/// station arena. `arrived` is write-once: it starts `false` and `arrive`
/// flips it to `true`, after which it never changes again.
pub struct Package {
    pub name: String,
    pub weight: u64,
    pub start: usize,
    pub end: usize,
    pub arrived: bool,
}

impl Package {
    pub fn new(name: String, weight: u64, start: usize, end: usize) -> (p: Package)
        ensures
            p.name == name,
            p.weight == weight,
            p.start == start,
            p.end == end,
            !p.arrived,
    {
        Package { name, weight, start, end, arrived: false }
    }

    pub fn get_name(&self) -> (r: String)
        ensures
            r == self.name,
    {
        self.name.clone()
    }

    /// The station where this package waits for pickup.
    pub fn get_start_node(&self) -> (r: usize)
        ensures
            r == self.start,
    {
        self.start
    }

    /// The station where this package must be dropped off.
    pub fn get_end_node(&self) -> (r: usize)
        ensures
            r == self.end,
    {
        self.end
    }

    pub fn get_weight(&self) -> (r: u64)
        ensures
            r == self.weight,
    {
        self.weight
    }

    /// Whether this package has been delivered to its drop-off station.
    pub fn get_arrived(&self) -> (r: bool)
        ensures
            r == self.arrived,
    {
        self.arrived
    }

    /// Mark the package as delivered. The flag is monotone: once set it is
    /// never cleared, and no other attribute of the package changes.
    pub fn arrive(&mut self)
        ensures
            *final(self) == (Package { arrived: true, ..*old(self) }),
    {
        self.arrived = true;
    }
}

} // verus!
