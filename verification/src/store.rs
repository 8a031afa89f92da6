//! Component columns: the values of one component type, one per row.

use vstd::prelude::*;
use crate::entity::EntityId;

verus! {

/// What `swap_remove` leaves of a column: the last value takes the place of
/// the removed one, and the column is one shorter.
pub open spec fn swap_removed<A>(s: Seq<A>, row: int) -> Seq<A>
    recommends
        0 <= row < s.len(),
{
    s.update(row, s.last()).drop_last()
}

/// A column of component values together with the identifier of their type.
pub struct ComponentStore<V> {
    pub type_id: u64,
    pub data: Vec<V>,
}

impl<V> View for ComponentStore<V> {
    type V = Seq<V>;

    /// The column's values, by row.
    open spec fn view(&self) -> Seq<V> {
        self.data@
    }
}

impl<V> ComponentStore<V> {
    /// An empty column for components of type `type_id`.
    pub fn new(type_id: u64) -> (store: Self)
        ensures
            store.type_id == type_id,
            store@ == Seq::<V>::empty(),
    {
        ComponentStore { type_id, data: Vec::new() }
    }

    /// An empty column for the same component type as `self`.
    pub fn new_same_type(&self) -> (store: Self)
        ensures
            store.type_id == self.type_id,
            store@ == Seq::<V>::empty(),
    {
        ComponentStore { type_id: self.type_id, data: Vec::new() }
    }

    /// Number of rows in the column.
    pub fn len(&self) -> (n: usize)
        ensures
            n == self@.len(),
    {
        self.data.len()
    }

    /// Removes row `index` and hands its value out; the last row moves into its place.
    pub fn swap_remove(&mut self, index: EntityId) -> (value: V)
        requires
            index < old(self)@.len(),
        ensures
            value == old(self)@[index as int],
            final(self).type_id == old(self).type_id,
            final(self)@ == swap_removed(old(self)@, index as int),
    {
        assert(self.data.len() == self.data@.len());
        self.data.swap_remove(index as usize)
    }

    /// Moves row `entity_index` out of this column, as `swap_remove` does, and
    /// appends it to `other`, which must hold the same component type.
    pub fn migrate(&mut self, entity_index: EntityId, other: &mut ComponentStore<V>)
        requires
            entity_index < old(self)@.len(),
            old(self).type_id == old(other).type_id,
        ensures
            final(self).type_id == old(self).type_id,
            final(other).type_id == old(other).type_id,
            final(self)@ == swap_removed(old(self)@, entity_index as int),
            final(other)@ == old(other)@.push(old(self)@[entity_index as int]),
    {
        assert(self.data.len() == self.data@.len());
        let value = self.data.swap_remove(entity_index as usize);
        other.data.push(value);
    }
}

} // verus!
