//! Error kinds surfaced by the storage core.
//!
//! No operation performs partial work on failure: every mutation validates
//! its preconditions before touching any column, so each error leaves the
//! structure exactly as it was.
use vstd::prelude::*;

verus! {

#[derive(Clone, Copy, PartialEq, Eq, Structural, Debug)]
pub enum EcsError {
    /// The operation referenced an entity absent from the relevant table or index.
    EntityNotFound,
    /// A read or write referenced a component not in the entity's current signature.
    ComponentNotFound,
    /// An insert was attempted for an entity already present in the target table.
    DuplicateEntity,
    /// `add_component` was attempted for a component already present.
    DuplicateComponent,
    /// A supplied value set does not equal the table's declared signature.
    SignatureMismatch,
    /// Supplied raw bytes or layout parameters disagree with the component's registered layout.
    TypeLayoutMismatch,
    /// A row access lies beyond the current row count.
    IndexOutOfRange,
}

} // verus!
