//! Entity handles and the registry slots they resolve through.

use vstd::prelude::*;

verus! {

/// Index of a slot in the entity registry, and the unit in which generations are counted.
pub type EntityId = u64;

/// Where an entity's row lives: which archetype, and which row inside it.
#[derive(Debug, Clone, Copy, PartialEq, Eq, Structural)]
pub struct EntityLocation {
    pub archetype_index: EntityId,
    pub index_in_archetype: EntityId,
}

/// One slot of the entity registry.
///
/// A slot is never removed. Its generation is even while an entity occupies it
/// and odd while it waits on the free list, so that a handle only ever matches
/// the slot during the life of the entity it was issued for.
#[derive(Debug, Clone, Copy, PartialEq, Eq, Structural)]
pub struct EntityInfo {
    pub generation: EntityId,
    pub location: EntityLocation,
}

/// Handle to an entity in a `World`.
#[derive(Debug, Clone, Copy, Hash, Eq, Ord, PartialEq, PartialOrd, Structural)]
pub struct Entity {
    pub index: EntityId,
    pub generation: EntityId,
}

impl EntityInfo {
    /// A slot holds an entity exactly when its generation is even.
    pub open spec fn occupied(&self) -> bool {
        self.generation % 2 == 0
    }

    /// Tells whether an entity currently occupies the slot.
    pub fn is_occupied(&self) -> (b: bool)
        ensures
            b == self.occupied(),
    {
        self.generation % 2 == 0
    }
}

} // verus!
