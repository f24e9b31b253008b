//! The storage core of an entity-component-system runtime: a columnar,
//! archetype-based store that holds per-entity component data in dense,
//! type-erased buffers grouped by the exact set of component types an entity
//! currently has.

pub mod column;
pub mod component;
pub mod database;
pub mod entity;
pub mod errors;
pub mod order;
pub mod table;
pub mod world;
