//! The top-level handle isolating one simulation from another.
//!
//! Each `World` carries a process-unique id drawn from a monotonically
//! increasing counter shared across all worlds. The counter itself holds no
//! lock: the caller that owns the one process-wide `WorldIdCounter` must hand
//! it in under mutual exclusion (a mutex or a single thread), which is the
//! only concurrency this core is exposed to.
use vstd::prelude::*;

use crate::component::ComponentId;
use crate::database::Database;
use crate::entity::EntityId;

verus! {

/// The process-wide source of world ids: a monotonic counter starting at
/// zero, whose next allocation returns one.
pub struct WorldIdCounter {
    pub last: u64,
}

impl WorldIdCounter {
    /// A fresh counter; the first id it allocates is 1.
    pub fn new() -> (c: WorldIdCounter)
        ensures
            c.last == 0,
    {
        WorldIdCounter { last: 0 }
    }

    /// Allocates the next world id. Ids are strictly increasing, so each is
    /// handed out once; the counter must not have reached its ceiling.
    pub fn allocate(&mut self) -> (id: u64)
        requires
            old(self).last < u64::MAX,
        ensures
            id == old(self).last + 1,
            final(self).last == id,
    {
        self.last = self.last + 1;
        self.last
    }
}

/// One simulation's namespace: a unique id, the registries of known entity
/// and component ids, and the one database owning all component data.
pub struct World {
    pub id: u64,
    pub entities: Vec<EntityId>,
    pub components: Vec<ComponentId>,
    pub database: Database,
}

impl World {
    /// Builds a world with a fresh id from the shared counter and an empty
    /// database.
    pub fn new(counter: &mut WorldIdCounter) -> (w: World)
        requires
            old(counter).last < u64::MAX,
        ensures
            w.id == old(counter).last + 1,
            final(counter).last == w.id,
            w.entities@ == Seq::<EntityId>::empty(),
            w.components@ == Seq::<ComponentId>::empty(),
            w.database.wf(),
            w.database.tables@.len() == 0,
            w.database.table_by_entity@.len() == 0,
            w.database.layouts@.len() == 0,
    {
        World {
            id: counter.allocate(),
            entities: Vec::new(),
            components: Vec::new(),
            database: Database::new(),
        }
    }
}

} // verus!
