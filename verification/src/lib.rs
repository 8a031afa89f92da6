//! An archetype-based entity-component store.
//!
//! Entities are generational handles. Each live entity owns one row in the
//! archetype that holds exactly its set of component types, and moves to
//! another archetype when a component is added or removed. Component types
//! are named by integers; the values of all types are of one Rust type `V`.
//!
//! A `World` stands for a map from live handles to records (type to value);
//! every operation says what it does to that map, and to the rows of the
//! archetypes, whose order is what queries follow.
//!
//! - `entity`, `error`: handles, registry slots, and what operations report;
//! - `record`: canonical type order and the records that rows stand for;
//! - `store`, `archetype`: columns, and rows of parallel columns;
//! - `bundle`: what an entity is spawned with, and type-set identifiers;
//! - `registry`: how registry and archetypes refer to each other;
//! - `world`, `query`: the operations;
//! - `laws`: what holds across operations;
//! - `ecs`: a plain store without archetypes, one optional value per entity
//!   and type;
//! - `iterator`, `log`, `viewport`, `gfx`: small helpers of the engine around
//!   it.

pub mod entity;
pub mod error;
pub mod record;
pub mod store;
pub mod archetype;
pub mod bundle;
pub mod registry;
pub mod world;
pub mod query;
pub mod laws;
pub mod ecs;
pub mod gfx;
pub mod iterator;
pub mod log;
pub mod viewport;

pub use archetype::{Archetype, ArchetypeView};
pub use bundle::ComponentBundle;
pub use entity::{Entity, EntityId, EntityInfo, EntityLocation};
pub use error::{ComponentError, EntityMissingComponent, FetchError, NoSuchEntity};
pub use iterator::ChainedIterator;
pub use store::ComponentStore;
pub use world::World;
