//! Entity identifiers.
use vstd::prelude::*;

verus! {

/// A stable, opaque entity key. It carries no data of its own; the storage
/// core accepts pre-allocated ids and never mints them.
#[derive(Clone, Copy, PartialEq, Eq, Structural, Debug)]
pub struct EntityId(pub u64);

} // verus!
