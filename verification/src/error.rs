//! The recoverable conditions that operations on a `World` report.

use vstd::prelude::*;
use crate::entity::EntityId;

verus! {

/// The handle does not name a live entity: it is stale, or was never issued.
#[derive(Debug, Clone, Copy, PartialEq, Eq, Structural)]
pub struct NoSuchEntity;

/// The entity is alive but has no component of the requested type.
#[derive(Debug, Clone, Copy, PartialEq, Eq, Structural)]
pub struct EntityMissingComponent {
    /// Registry index of the entity that was asked about.
    pub entity: EntityId,
    /// Identifier of the component type that the entity lacks.
    pub type_id: u64,
}

impl EntityMissingComponent {
    /// The error that says that entity `entity_id` lacks type `type_id`.
    pub fn new(entity_id: EntityId, type_id: u64) -> (e: Self)
        ensures
            e.entity == entity_id,
            e.type_id == type_id,
    {
        EntityMissingComponent { entity: entity_id, type_id }
    }
}

/// What can go wrong when a component of one entity is read or removed.
#[derive(Debug, Clone, Copy, PartialEq, Eq, Structural)]
pub enum ComponentError {
    EntityMissingComponent(EntityMissingComponent),
    NoSuchEntity(NoSuchEntity),
}

/// A query found nothing to hand out.
#[derive(Debug, Clone, Copy, PartialEq, Eq, Structural)]
pub struct FetchError;

} // verus!
