//! Component type identifiers.
use vstd::prelude::*;

verus! {

/// A stable, opaque identifier of one component *type*. Its byte size and
/// alignment are registered out of band with the database.
#[derive(Clone, Copy, PartialEq, Eq, Structural, Debug)]
pub struct ComponentId(pub u64);

} // verus!
