//! A rail-logistics simulation: stations connected by timed rails, trains of
//! finite capacity, and packages that must travel from a pickup station to a
//! drop-off station. Stations, rails, trains and packages live in arenas owned
//! by a `Network` and refer to one another by index.
use vstd::prelude::*;

pub mod edge;
pub mod heap;
pub mod network;
pub mod node;
pub mod package;
pub mod train;

verus! {

/// The ways a configuration can be rejected. The first three are setup-time
/// violations; `UnreachableDelivery` is raised by the simulation driver when
/// no train can make further progress while packages remain undelivered.
#[derive(Clone, Copy, PartialEq, Eq, Structural, Debug)]
pub enum SimError {
    /// Two entities of the same kind were registered under one name.
    DuplicateName,
    /// A name or index did not resolve to a registered entity.
    NotFound,
    /// A route demanded a hop along a rail that does not exist.
    EdgeNotFound,
    /// Packages remain undelivered but every train has stopped.
    UnreachableDelivery,
}

} // verus!
