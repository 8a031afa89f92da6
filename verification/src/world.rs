//! The world: all archetypes, the entity registry, and the operations that
//! create, change and destroy entities.
//!
//! Every operation that changes the world takes it by unique reference, and
//! every query borrows it: a migration, which touches several columns and
//! the registry in turn, can overlap neither another change nor a query.

use std::collections::HashMap;
use vstd::prelude::*;
use crate::archetype::{Archetype, ArchetypeView};
use crate::bundle::{
    bundle_id, bundle_record, bundle_types, calculate_bundle_id, distinct_types,
    lemma_bundle_record, ComponentBundle,
};
use crate::entity::{Entity, EntityId, EntityInfo, EntityLocation};
use crate::error::{ComponentError, EntityMissingComponent, NoSuchEntity};
use crate::record::{
    canonical, lemma_ascending_index_of, lemma_canonical_exists, lemma_canonical_of_ascending,
    lemma_insert_ascending, lemma_insert_to_set, lemma_record_insert, lemma_record_of_values,
    lemma_record_remove, lemma_remove_to_set, lemma_values_of_record, record, strictly_ascending,
    values_in_order,
};
use crate::registry::{
    archetypes_distinct, archetypes_findable, generations_advance, layout_wf, lemma_despawn,
    lemma_layout_push, lemma_layout_update, lemma_registry_push, lemma_relocate,
    lemma_replace_value, lemma_spawn, live, location_at, owns, placed, registry_wf,
    same_generations, set_location, world_view,
};

verus! {

/// Some archetype of the layout holds exactly the columns `types`.
pub open spec fn has_archetype<V>(layout: Seq<ArchetypeView<V>>, types: Seq<u64>) -> bool {
    exists|i: int| 0 <= i < layout.len() && (#[trigger] layout[i]).types == types
}

/// Position of the archetype with columns `types`; the length of the layout,
/// where a new archetype would be appended, if there is none.
pub open spec fn archetype_position<V>(layout: Seq<ArchetypeView<V>>, types: Seq<u64>) -> int {
    if has_archetype(layout, types) {
        choose|i: int| 0 <= i < layout.len() && (#[trigger] layout[i]).types == types
    } else {
        layout.len() as int
    }
}

/// The layout once an archetype with columns `types` is known to exist: the
/// layout itself, or the layout with an empty archetype for `types` appended.
pub open spec fn with_archetype<V>(layout: Seq<ArchetypeView<V>>, types: Seq<u64>) -> Seq<
    ArchetypeView<V>,
> {
    if has_archetype(layout, types) {
        layout
    } else {
        layout.push(ArchetypeView::empty(types))
    }
}

/// The lookup table once an archetype with columns `types` is known to
/// exist: the table itself, or the table with the identifier of `types`
/// pointing at the archetype appended for them.
pub open spec fn with_archetype_id<V>(
    layout: Seq<ArchetypeView<V>>,
    ids: Map<u64, usize>,
    types: Seq<u64>,
) -> Map<u64, usize> {
    if has_archetype(layout, types) {
        ids
    } else {
        ids.insert(bundle_id(types), layout.len() as usize)
    }
}

/// The content of a sequence of archetypes, in order.
pub open spec fn layout_of<V>(archetypes: Seq<Archetype<V>>) -> Seq<ArchetypeView<V>> {
    Seq::new(archetypes.len(), |i: int| archetypes[i]@)
}

/// Replacing one archetype replaces its content in the layout.
pub proof fn lemma_layout_of_update<V>(archetypes: Seq<Archetype<V>>, i: int, archetype: Archetype<V>)
    requires
        0 <= i < archetypes.len(),
    ensures
        layout_of(archetypes.update(i, archetype)) == layout_of(archetypes).update(i, archetype@),
{
    assert(layout_of(archetypes.update(i, archetype)) =~= layout_of(archetypes).update(
        i,
        archetype@,
    ));
}

/// Among archetypes with distinct type sequences, the one that has `types`
/// is found at its own position.
pub proof fn lemma_archetype_position<V>(layout: Seq<ArchetypeView<V>>, types: Seq<u64>, i: int)
    requires
        archetypes_distinct(layout),
        0 <= i < layout.len(),
        layout[i].types == types,
    ensures
        has_archetype(layout, types),
        archetype_position(layout, types) == i,
        with_archetype(layout, types) == layout,
{
    let j = archetype_position(layout, types);
    assert(0 <= j < layout.len() && layout[j].types == types);
    if i < j {
        assert(layout[i].types != layout[j].types);
    } else if j < i {
        assert(layout[j].types != layout[i].types);
    }
}

/// Two distinct elements of one slice, both borrowed mutably.
pub fn index_twice<T>(slice: &mut [T], first: usize, second: usize) -> (r: (&mut T, &mut T))
    requires
        first < old(slice)@.len(),
        second < old(slice)@.len(),
        first != second,
    ensures
        *r.0 == old(slice)@[first as int],
        *r.1 == old(slice)@[second as int],
        final(slice)@ == old(slice)@.update(first as int, *final(r.0)).update(
            second as int,
            *final(r.1),
        ),
{
    if first < second {
        let (a, b) = slice.split_at_mut(second);
        (&mut a[first], &mut b[0])
    } else {
        let (a, b) = slice.split_at_mut(first);
        (&mut b[0], &mut a[second])
    }
}

/// The layout after the row at `location`, owned by slot `entity`, has moved
/// to the archetype with columns `target`, where it holds `components`. The
/// archetype is appended, empty, if the layout has none for `target`.
pub open spec fn layout_after_move<V>(
    layout: Seq<ArchetypeView<V>>,
    location: EntityLocation,
    entity: EntityId,
    target: Seq<u64>,
    components: Map<u64, V>,
) -> Seq<ArchetypeView<V>> {
    let a = location.archetype_index as int;
    let row = location.index_in_archetype as int;
    let grown = with_archetype(layout, target);
    let b = archetype_position(layout, target);
    grown.update(a, layout[a].without_row(row)).update(
        b,
        grown[b].with_row(entity, values_in_order(target, components)),
    )
}

/// The layout after the entity in slot `entity`, stored at `location`, has
/// been given the component `value` of type `type_id`: overwritten in place
/// if the entity has that type already, else the row moves to the archetype
/// for the larger set of types.
pub open spec fn layout_after_add<V>(
    layout: Seq<ArchetypeView<V>>,
    location: EntityLocation,
    entity: EntityId,
    type_id: u64,
    value: V,
) -> Seq<ArchetypeView<V>> {
    let a = location.archetype_index as int;
    let row = location.index_in_archetype as int;
    let types = layout[a].types;
    if types.contains(type_id) {
        layout.update(a, layout[a].with_value(row, types.index_of(type_id), value))
    } else {
        layout_after_move(
            layout,
            location,
            entity,
            canonical(types.to_set().insert(type_id)),
            layout[a].row(row).insert(type_id, value),
        )
    }
}

/// The layout after the component of type `type_id` has been taken from the
/// entity in slot `entity`, stored at `location`: the row moves to the
/// archetype for the smaller set of types.
pub open spec fn layout_after_remove<V>(
    layout: Seq<ArchetypeView<V>>,
    location: EntityLocation,
    entity: EntityId,
    type_id: u64,
) -> Seq<ArchetypeView<V>> {
    let a = location.archetype_index as int;
    let row = location.index_in_archetype as int;
    layout_after_move(
        layout,
        location,
        entity,
        canonical(layout[a].types.to_set().remove(type_id)),
        layout[a].row(row).remove(type_id),
    )
}

/// The layout after a row for slot `entity` with the components of a bundle
/// has been appended to the archetype for the bundle's set of types. The
/// archetype is appended, empty, if the layout has none for that set.
pub open spec fn layout_after_spawn<V>(
    layout: Seq<ArchetypeView<V>>,
    entity: EntityId,
    components: Seq<(u64, V)>,
) -> Seq<ArchetypeView<V>> {
    let target = canonical(bundle_types(components).to_set());
    let grown = with_archetype(layout, target);
    let a = archetype_position(layout, target);
    grown.update(
        a,
        grown[a].with_row(entity, values_in_order(target, bundle_record(components))),
    )
}

/// Where the row of an entity spawned with the given bundle is stored: at
/// the end of the archetype for the bundle's set of types.
pub open spec fn spawn_location<V>(
    layout: Seq<ArchetypeView<V>>,
    components: Seq<(u64, V)>,
) -> EntityLocation {
    let target = canonical(bundle_types(components).to_set());
    let a = archetype_position(layout, target);
    location_at(a, with_archetype(layout, target)[a].rows() as int)
}

/// The handle that the next spawn gives out: the slot on top of the free
/// list with its generation advanced by one (wrapping), or else a new slot
/// at the end of the registry with generation zero.
pub open spec fn next_entity(entities: Seq<EntityInfo>, free: Seq<EntityId>) -> Entity {
    if free.len() > 0 {
        Entity {
            index: free.last(),
            generation: if entities[free.last() as int].generation == u64::MAX {
                0
            } else {
                (entities[free.last() as int].generation + 1) as u64
            },
        }
    } else {
        Entity { index: entities.len() as u64, generation: 0 }
    }
}

/// The next spawn reuses a slot whose generation is the greatest a slot can
/// have, and lets it start again from zero.
pub open spec fn generation_wraps(entities: Seq<EntityInfo>, free: Seq<EntityId>) -> bool {
    free.len() > 0 && entities[free.last() as int].generation == u64::MAX
}

/// Holds all components and associates them with entities.
pub struct World<V> {
    /// The archetypes, in the order of their creation. None is ever removed.
    pub archetypes: Vec<Archetype<V>>,
    /// From the identifier of a canonical type sequence to an archetype that
    /// was created under it.
    pub bundle_id_to_archetype: HashMap<u64, usize>,
    /// The entity registry: one slot per index ever allocated.
    pub entities: Vec<EntityInfo>,
    /// Indices of the slots that wait for reuse; the last one goes first.
    pub free_entities: Vec<EntityId>,
}

impl<V> View for World<V> {
    type V = Map<Entity, Map<u64, V>>;

    /// Every live handle mapped to the components of its entity, by type.
    open spec fn view(&self) -> Map<Entity, Map<u64, V>> {
        world_view(self.layout(), self.entities@)
    }
}

impl<V> World<V> {
    /// The content of the archetypes, in storage order.
    pub open spec fn layout(&self) -> Seq<ArchetypeView<V>> {
        layout_of(self.archetypes@)
    }

    /// The archetypes are consistent among themselves and with the registry.
    pub open spec fn wf(&self) -> bool {
        &&& layout_wf(self.layout(), self.bundle_id_to_archetype@)
        &&& registry_wf(self.layout(), self.entities@, self.free_entities@)
    }

    /// The handle names a live entity of this world.
    pub open spec fn contains(&self, entity: Entity) -> bool {
        live(self.entities@, entity)
    }

    /// Where the registry says the entity with this handle is stored.
    pub open spec fn location(&self, entity: Entity) -> EntityLocation {
        self.entities@[entity.index as int].location
    }

    /// An empty world.
    pub fn new() -> (world: Self)
        ensures
            world.wf(),
            world@ == Map::<Entity, Map<u64, V>>::empty(),
            world.layout() == Seq::<ArchetypeView<V>>::empty(),
            world.entities@ == Seq::<EntityInfo>::empty(),
            world.free_entities@ == Seq::<EntityId>::empty(),
            world.bundle_id_to_archetype@ == Map::<u64, usize>::empty(),
    {
        let world = World {
            archetypes: Vec::new(),
            bundle_id_to_archetype: HashMap::new(),
            entities: Vec::new(),
            free_entities: Vec::new(),
        };
        assert(world.layout() =~= Seq::<ArchetypeView<V>>::empty());
        assert(world@ =~= Map::<Entity, Map<u64, V>>::empty());
        world
    }

    /// Looks for the archetype whose columns are exactly `types`, which must
    /// come with their identifier. The lookup table answers at once unless two
    /// type sequences share an identifier; then the archetypes are searched
    /// one by one.
    pub fn find_archetype(&self, types: &Vec<u64>, id: u64) -> (found: Option<usize>)
        requires
            archetypes_distinct(self.layout()),
            archetypes_findable(self.layout(), self.bundle_id_to_archetype@),
            id == bundle_id(types@),
        ensures
            match found {
                Some(i) => i == archetype_position(self.layout(), types@) && has_archetype(
                    self.layout(),
                    types@,
                ),
                None => !has_archetype(self.layout(), types@),
            },
    {
        let hint: usize = match self.bundle_id_to_archetype.get(&id) {
            Some(index) => *index,
            None => {
                assert forall|i: int| 0 <= i < self.layout().len() implies (
                #[trigger] self.layout()[i]).types != types@ by {
                    assert(self.bundle_id_to_archetype@.contains_key(
                        bundle_id(self.layout()[i].types),
                    ));
                }
                return None;
            },
        };
        assert(self.bundle_id_to_archetype@.contains_key(id));
        if self.archetypes[hint].has_types(types) {
            proof {
                lemma_archetype_position(self.layout(), types@, hint as int);
            }
            return Some(hint);
        }
        let n: usize = self.archetypes.len();
        let mut i: usize = 0;
        while i < n
            invariant
                i <= n,
                n == self.archetypes@.len(),
                archetypes_distinct(self.layout()),
                forall|j: int| 0 <= j < i ==> (#[trigger] self.layout()[j]).types != types@,
            decreases n - i,
        {
            if self.archetypes[i].has_types(types) {
                proof {
                    lemma_archetype_position(self.layout(), types@, i as int);
                }
                return Some(i);
            }
            i = i + 1;
        }
        None
    }

    /// Appends an archetype without rows, for a type sequence that no
    /// archetype has yet, and enters it in the lookup table under `id`. No
    /// entity is touched.
    pub fn insert_archetype(&mut self, id: u64, archetype: Archetype<V>) -> (index: usize)
        requires
            layout_wf(old(self).layout(), old(self).bundle_id_to_archetype@),
            strictly_ascending(archetype@.types),
            archetype@ == ArchetypeView::<V>::empty(archetype@.types),
            !has_archetype(old(self).layout(), archetype@.types),
            id == bundle_id(archetype@.types),
        ensures
            layout_wf(final(self).layout(), final(self).bundle_id_to_archetype@),
            index == old(self).layout().len(),
            final(self).layout() == old(self).layout().push(archetype@),
            final(self).bundle_id_to_archetype@ == old(self).bundle_id_to_archetype@.insert(
                id,
                index,
            ),
            final(self).entities@ == old(self).entities@,
            final(self).free_entities@ == old(self).free_entities@,
            old(self).wf() ==> final(self).wf() && final(self)@ == old(self)@,
    {
        let index: usize = self.archetypes.len();
        let ghost content = archetype@;
        self.bundle_id_to_archetype.insert(id, index);
        self.archetypes.push(archetype);
        assert(self.archetypes.len() == index + 1);
        proof {
            assert(self.layout() =~= old(self).layout().push(content));
            assert forall|i: int| 0 <= i < old(self).layout().len() implies (
            #[trigger] old(self).layout()[i]).types != content.types by {}
            lemma_layout_push(old(self).layout(), old(self).bundle_id_to_archetype@, content);
            if old(self).wf() {
                lemma_registry_push(
                    old(self).layout(),
                    self.entities@,
                    self.free_entities@,
                    content,
                );
            }
        }
        index
    }

    /// The registry slot of a live entity, or `None` for a handle that names
    /// none.
    pub fn entity_info(&self, entity: Entity) -> (info: Option<EntityInfo>)
        ensures
            info is Some <==> self.contains(entity),
            info is Some ==> info->0 == self.entities@[entity.index as int],
    {
        if entity.index >= self.entities.len() as u64 {
            return None;
        }
        let info = self.entities[entity.index as usize];
        if info.generation == entity.generation && info.is_occupied() {
            Some(info)
        } else {
            None
        }
    }

    /// Remove an entity and all of its components from the world.
    ///
    /// Fails with `NoSuchEntity`, changing nothing, when the handle is not
    /// live. Otherwise the entity's row is swap-removed from its archetype,
    /// its slot gets the next (odd) generation and goes on the free list, and
    /// every other entity keeps its components.
    pub fn despawn(&mut self, entity: Entity) -> (r: Result<(), NoSuchEntity>)
        requires
            old(self).wf(),
        ensures
            final(self).wf(),
            generations_advance(old(self).entities@, final(self).entities@),
            r is Ok <==> old(self)@.contains_key(entity),
            r is Err ==> *final(self) == *old(self),
            r is Ok ==> {
                let a = old(self).location(entity).archetype_index as int;
                let row = old(self).location(entity).index_in_archetype as int;
                &&& final(self)@ == old(self)@.remove(entity)
                &&& final(self).layout() == old(self).layout().update(
                    a,
                    old(self).layout()[a].without_row(row),
                )
                &&& final(self).free_entities@ == old(self).free_entities@.push(entity.index)
                &&& final(self).bundle_id_to_archetype@ == old(self).bundle_id_to_archetype@
                &&& final(self).entities@.len() == old(self).entities@.len()
                &&& final(self).entities@[entity.index as int].generation == entity.generation + 1
                &&& forall|i: int|
                    0 <= i < old(self).entities@.len() && i != entity.index ==> (
                    #[trigger] final(self).entities@[i]).generation
                        == old(self).entities@[i].generation
            },
    {
        let info = match self.entity_info(entity) {
            Some(info) => info,
            None => {
                return Err(NoSuchEntity);
            },
        };
        proof {
            lemma_despawn(self.layout(), self.entities@, self.free_entities@, entity);
        }
        let a: usize = info.location.archetype_index as usize;
        let index: usize = entity.index as usize;
        self.entities[index].generation += 1;
        let moved = self.archetypes[a].remove_entity(info.location.index_in_archetype);
        self.free_entities.push(entity.index);
        self.entities[moved as usize].location = info.location;
        proof {
            let layout2 = old(self).layout().update(
                a as int,
                old(self).layout()[a as int].without_row(info.location.index_in_archetype as int),
            );
            assert(self.layout() =~= layout2);
            let entities1 = old(self).entities@.update(
                entity.index as int,
                EntityInfo { generation: (entity.generation + 1) as u64, location: info.location },
            );
            let entities2 = set_location(
                entities1,
                moved as int,
                a as int,
                info.location.index_in_archetype as int,
            );
            assert(self.entities@ =~= entities2);
            lemma_layout_update(
                old(self).layout(),
                self.bundle_id_to_archetype@,
                a as int,
                layout2[a as int],
            );
        }
        Ok(())
    }

    /// Get mutable access to a single component of an entity.
    ///
    /// Fails with `NoSuchEntity` when the handle is not live, and with
    /// `EntityMissingComponent` when the entity has no component of type
    /// `type_id`; the world is then unchanged. Otherwise whatever is written
    /// through the reference becomes the entity's component of that type, and
    /// nothing else changes.
    pub fn get_component_mut(&mut self, entity: Entity, type_id: u64) -> (r: Result<
        &mut V,
        ComponentError,
    >)
        requires
            old(self).wf(),
        ensures
            final(self).wf(),
            generations_advance(old(self).entities@, final(self).entities@),
            match r {
                Ok(value) => {
                    let a = old(self).location(entity).archetype_index as int;
                    let row = old(self).location(entity).index_in_archetype as int;
                    let column = old(self).layout()[a].types.index_of(type_id);
                    &&& old(self)@.contains_key(entity)
                    &&& old(self)@[entity].contains_key(type_id)
                    &&& *value == old(self)@[entity][type_id]
                    &&& final(self)@ == old(self)@.insert(
                        entity,
                        old(self)@[entity].insert(type_id, *final(value)),
                    )
                    &&& final(self).layout() == old(self).layout().update(
                        a,
                        old(self).layout()[a].with_value(row, column, *final(value)),
                    )
                    &&& final(self).entities@ == old(self).entities@
                    &&& final(self).free_entities@ == old(self).free_entities@
                    &&& final(self).bundle_id_to_archetype@ == old(self).bundle_id_to_archetype@
                },
                Err(ComponentError::NoSuchEntity(_)) => {
                    &&& !old(self)@.contains_key(entity)
                    &&& *final(self) == *old(self)
                },
                Err(ComponentError::EntityMissingComponent(e)) => {
                    &&& old(self)@.contains_key(entity)
                    &&& !old(self)@[entity].contains_key(type_id)
                    &&& e.entity == entity.index
                    &&& e.type_id == type_id
                    &&& *final(self) == *old(self)
                },
            },
    {
        let info = match self.entity_info(entity) {
            Some(info) => info,
            None => {
                return Err(ComponentError::NoSuchEntity(NoSuchEntity));
            },
        };
        let a: usize = info.location.archetype_index as usize;
        let ghost layout = self.layout();
        let ghost row = info.location.index_in_archetype as int;
        proof {
            assert(placed(layout, self.entities@[entity.index as int], entity.index as int));
            assert(layout[a as int].wf());
            assert forall|after: Archetype<V>| #[trigger]
                layout_of(old(self).archetypes@.update(a as int, after)) == layout.update(
                    a as int,
                    after@,
                ) by {
                lemma_layout_of_update(old(self).archetypes@, a as int, after);
            }
        }
        match self.archetypes[a].search_type(type_id) {
            Ok(column) => {
                proof {
                    lemma_ascending_index_of(layout[a as int].types, column as int);
                    assert(layout[a as int].columns[column as int].len()
                        == layout[a as int].entities.len());
                    assert(layout[a as int].row_values(row)[column as int]
                        == layout[a as int].columns[column as int][row]);
                }
                let archetype = &mut self.archetypes[a];
                let store = archetype.mutable_component_store(column);
                assert(store.len() == store@.len());
                let value = &mut store[info.location.index_in_archetype as usize];
                proof {
                    lemma_replace_value(
                        layout,
                        old(self).entities@,
                        old(self).free_entities@,
                        entity,
                        column as int,
                        *final(value),
                    );
                    let layout2 = layout.update(
                        a as int,
                        layout[a as int].with_value(row, column as int, *final(value)),
                    );
                    lemma_layout_update(
                        layout,
                        old(self).bundle_id_to_archetype@,
                        a as int,
                        layout2[a as int],
                    );
                }
                Ok(value)
            },
            Err(_) => Err(
                ComponentError::EntityMissingComponent(
                    EntityMissingComponent::new(entity.index, type_id),
                ),
            ),
        }
    }

    /// Moves the row of the live entity `entity` from its archetype to the
    /// end of another archetype `b`. The columns before `split` keep their
    /// position. With `extra` given, the destination has one more column, of
    /// the type given, at `split`, which receives the value given; without it
    /// the destination lacks the source's column `split`, whose value is
    /// handed out.
    fn move_row(
        &mut self,
        entity: Entity,
        b: usize,
        split: usize,
        extra: Option<(u64, V)>,
    ) -> (taken: Option<V>)
        requires
            old(self).wf(),
            old(self).contains(entity),
            b < old(self).layout().len(),
            b != old(self).location(entity).archetype_index,
            ({
                let source = old(self).layout()[old(self).location(entity).archetype_index as int];
                let target = old(self).layout()[b as int];
                match extra {
                    Some(added) => split <= source.types.len() && target.types
                        == source.types.insert(split as int, added.0),
                    None => split < source.types.len() && target.types == source.types.remove(
                        split as int,
                    ),
                }
            }),
        ensures
            final(self).wf(),
            final(self).bundle_id_to_archetype@ == old(self).bundle_id_to_archetype@,
            final(self).free_entities@ == old(self).free_entities@,
            ({
                let a = old(self).location(entity).archetype_index as int;
                let row = old(self).location(entity).index_in_archetype as int;
                let source = old(self).layout()[a];
                let target = old(self).layout()[b as int];
                let values = match extra {
                    Some(added) => source.row_values(row).insert(split as int, added.1),
                    None => source.row_values(row).remove(split as int),
                };
                &&& extra is Some <==> taken is None
                &&& taken matches Some(v) ==> v == source.columns[split as int][row]
                &&& final(self).layout() == old(self).layout().update(
                    a,
                    source.without_row(row),
                ).update(b as int, target.with_row(entity.index, values))
                &&& final(self)@ == old(self)@.insert(entity, record(target.types, values))
                &&& same_generations(old(self).entities@, final(self).entities@)
            }),
    {
        let ghost layout = self.layout();
        let ghost entities = self.entities@;
        let info = self.entities[entity.index as usize];
        let a: usize = info.location.archetype_index as usize;
        let row: EntityId = info.location.index_in_archetype;
        let ghost source = layout[a as int];
        let ghost target = layout[b as int];
        let ghost values = if extra is Some {
            source.row_values(row as int).insert(split as int, (extra->0).1)
        } else {
            source.row_values(row as int).remove(split as int)
        };
        proof {
            assert(placed(layout, entities[entity.index as int], entity.index as int));
            assert(source.wf());
            assert(target.wf());
            assert(target.entities.len() <= usize::MAX);
            assert(source.entities.len() <= usize::MAX);
            assert(owns(
                entities,
                source.entities[source.entities.len() - 1],
                a as int,
                source.entities.len() - 1,
            ));
            assert forall|first: Archetype<V>, second: Archetype<V>| #[trigger]
                layout_of(
                    old(self).archetypes@.update(a as int, first).update(b as int, second),
                ) == layout.update(a as int, first@).update(b as int, second@) by {
                lemma_layout_of_update(old(self).archetypes@, a as int, first);
                lemma_layout_of_update(
                    old(self).archetypes@.update(a as int, first),
                    b as int,
                    second,
                );
            }
        }
        let (old_archetype, new_archetype) = index_twice(self.archetypes.as_mut_slice(), a, b);
        let rows: usize = old_archetype.len();
        let columns: usize = old_archetype.components.len();
        let new_row: usize = new_archetype.len();

        // If an entity is being moved into the vacated row, update its location
        let last: EntityId = old_archetype.entities[rows - 1];
        self.entities[last as usize].location = info.location;
        // The entity itself goes to the end of the other archetype
        self.entities[entity.index as usize].location = EntityLocation {
            archetype_index: b as EntityId,
            index_in_archetype: new_row as EntityId,
        };
        proof {
            assert(self.entities@ =~= set_location(
                set_location(entities, last as int, a as int, row as int),
                entity.index as int,
                b as int,
                new_row as int,
            ));
            assert forall|i: int| split <= i < columns implies (
            #[trigger] source.columns[i]).len() == source.entities.len() by {}
        }

        old_archetype.migrate_components(0, split, row, new_archetype, 0);
        let taken = match extra {
            Some((_, value)) => {
                let width: usize = new_archetype.components.len();
                assert(width == columns + 1);
                new_archetype.push(split, value);
                old_archetype.migrate_components(split, columns, row, new_archetype, split + 1);
                None
            },
            None => {
                old_archetype.migrate_components(split + 1, columns, row, new_archetype, split);
                let store = old_archetype.mutable_component_store(split);
                assert(store.len() == store@.len());
                Some(store.swap_remove(row as usize))
            },
        };
        let _ = old_archetype.entities.swap_remove(row as usize);
        new_archetype.entities.push(entity.index);
        proof {
            assert(new_archetype.entities.len() == new_row + 1);
            lemma_relocate(layout, entities, old(self).free_entities@, entity, b as int, values);
            assert(old_archetype@.columns =~= source.without_row(row as int).columns);
            assert(old_archetype@ == source.without_row(row as int));
            assert(new_archetype@.columns =~= target.with_row(entity.index, values).columns);
            assert(new_archetype@ == target.with_row(entity.index, values));
            let layout2 = layout.update(a as int, source.without_row(row as int)).update(
                b as int,
                target.with_row(entity.index, values),
            );
            lemma_layout_update(
                layout,
                old(self).bundle_id_to_archetype@,
                a as int,
                source.without_row(row as int),
            );
            lemma_layout_update(
                layout.update(a as int, source.without_row(row as int)),
                old(self).bundle_id_to_archetype@,
                b as int,
                target.with_row(entity.index, values),
            );
        }
        taken
    }

    /// Add a component to an entity. If the entity has a component of that
    /// type already, its value is replaced in place; otherwise the entity
    /// moves to the archetype for its enlarged set of types, which is
    /// created if it does not exist yet.
    ///
    /// Fails with `NoSuchEntity`, changing nothing, when the handle is not
    /// live.
    pub fn add_component(&mut self, entity: Entity, type_id: u64, t: V) -> (r: Result<
        (),
        NoSuchEntity,
    >)
        requires
            old(self).wf(),
        ensures
            final(self).wf(),
            generations_advance(old(self).entities@, final(self).entities@),
            r is Ok <==> old(self)@.contains_key(entity),
            r is Err ==> *final(self) == *old(self),
            r is Ok ==> {
                &&& final(self)@ == old(self)@.insert(
                    entity,
                    old(self)@[entity].insert(type_id, t),
                )
                &&& final(self).layout() == layout_after_add(
                    old(self).layout(),
                    old(self).location(entity),
                    entity.index,
                    type_id,
                    t,
                )
                &&& same_generations(old(self).entities@, final(self).entities@)
                &&& final(self).free_entities@ == old(self).free_entities@
                &&& final(self).bundle_id_to_archetype@ == if old(self)@[entity].contains_key(
                    type_id,
                ) {
                    old(self).bundle_id_to_archetype@
                } else {
                    with_archetype_id(
                        old(self).layout(),
                        old(self).bundle_id_to_archetype@,
                        canonical(old(self)@[entity].dom().insert(type_id)),
                    )
                }
            },
    {
        let info = match self.entity_info(entity) {
            Some(info) => info,
            None => {
                return Err(NoSuchEntity);
            },
        };
        let a: usize = info.location.archetype_index as usize;
        let row: EntityId = info.location.index_in_archetype;
        let ghost layout = self.layout();
        let ghost source = layout[a as int];
        proof {
            assert(placed(layout, self.entities@[entity.index as int], entity.index as int));
            assert(source.wf());
        }
        match self.archetypes[a].search_type(type_id) {
            Ok(column) => {
                // The entity has a component of this type: replace it
                proof {
                    lemma_ascending_index_of(source.types, column as int);
                    assert(source.columns[column as int].len() == source.entities.len());
                    lemma_replace_value(
                        layout,
                        self.entities@,
                        self.free_entities@,
                        entity,
                        column as int,
                        t,
                    );
                    lemma_layout_update(
                        layout,
                        self.bundle_id_to_archetype@,
                        a as int,
                        source.with_value(row as int, column as int, t),
                    );
                }
                self.archetypes[a].replace_component(column, row, t);
                proof {
                    lemma_layout_of_update(old(self).archetypes@, a as int, self.archetypes@[a as int]);
                }
            },
            Err(insert_index) => {
                // Find the archetype to migrate to, or create it
                let mut type_ids = self.archetypes[a].type_ids();
                type_ids.insert(insert_index, type_id);
                proof {
                    lemma_insert_ascending(source.types, insert_index as int, type_id);
                }
                let bundle_id = calculate_bundle_id(type_ids.as_slice());
                let new_archetype_index = match self.find_archetype(&type_ids, bundle_id) {
                    Some(index) => index,
                    None => {
                        let archetype = self.archetypes[a].new_with_component(
                            insert_index,
                            type_id,
                        );
                        self.insert_archetype(bundle_id, archetype)
                    },
                };
                proof {
                    assert(self.layout() == with_archetype(layout, type_ids@));
                    assert(self.layout()[new_archetype_index as int].types == type_ids@);
                    assert(self.layout()[a as int] == source);
                    assert(type_ids@[insert_index as int] == type_id);
                    assert(!source.types.contains(type_id));
                    assert(self.layout()[new_archetype_index as int].types
                        == source.types.insert(insert_index as int, type_id));
                    assert(new_archetype_index != a);
                    lemma_record_insert(
                        source.types,
                        source.row_values(row as int),
                        insert_index as int,
                        type_id,
                        t,
                    );
                    lemma_values_of_record(
                        type_ids@,
                        source.row_values(row as int).insert(insert_index as int, t),
                    );
                    lemma_canonical_of_ascending(type_ids@);
                    assert(type_ids@.to_set() =~= source.types.to_set().insert(type_id)) by {
                        lemma_insert_to_set(source.types, insert_index as int, type_id);
                    }
                }
                let _ = self.move_row(
                    entity,
                    new_archetype_index,
                    insert_index,
                    Some((type_id, t)),
                );
            },
        }
        Ok(())
    }

    /// Remove a single component from an entity and hand it out. The entity
    /// moves to the archetype for its reduced set of types, which is created
    /// if it does not exist yet.
    ///
    /// Fails with `NoSuchEntity` when the handle is not live, and with
    /// `EntityMissingComponent` when the entity has no component of type
    /// `type_id`; the world is then unchanged.
    pub fn remove_component(&mut self, entity: Entity, type_id: u64) -> (r: Result<
        V,
        ComponentError,
    >)
        requires
            old(self).wf(),
        ensures
            final(self).wf(),
            generations_advance(old(self).entities@, final(self).entities@),
            match r {
                Ok(value) => {
                    &&& old(self)@.contains_key(entity)
                    &&& old(self)@[entity].contains_key(type_id)
                    &&& value == old(self)@[entity][type_id]
                    &&& final(self)@ == old(self)@.insert(
                        entity,
                        old(self)@[entity].remove(type_id),
                    )
                    &&& final(self).layout() == layout_after_remove(
                        old(self).layout(),
                        old(self).location(entity),
                        entity.index,
                        type_id,
                    )
                    &&& same_generations(old(self).entities@, final(self).entities@)
                    &&& final(self).free_entities@ == old(self).free_entities@
                    &&& final(self).bundle_id_to_archetype@ == with_archetype_id(
                        old(self).layout(),
                        old(self).bundle_id_to_archetype@,
                        canonical(old(self)@[entity].dom().remove(type_id)),
                    )
                },
                Err(ComponentError::NoSuchEntity(_)) => {
                    &&& !old(self)@.contains_key(entity)
                    &&& *final(self) == *old(self)
                },
                Err(ComponentError::EntityMissingComponent(e)) => {
                    &&& old(self)@.contains_key(entity)
                    &&& !old(self)@[entity].contains_key(type_id)
                    &&& e.entity == entity.index
                    &&& e.type_id == type_id
                    &&& *final(self) == *old(self)
                },
            },
    {
        let info = match self.entity_info(entity) {
            Some(info) => info,
            None => {
                return Err(ComponentError::NoSuchEntity(NoSuchEntity));
            },
        };
        let a: usize = info.location.archetype_index as usize;
        let row: EntityId = info.location.index_in_archetype;
        let ghost layout = self.layout();
        let ghost source = layout[a as int];
        proof {
            assert(placed(layout, self.entities@[entity.index as int], entity.index as int));
            assert(source.wf());
        }
        match self.archetypes[a].search_type(type_id) {
            Ok(remove_index) => {
                let mut type_ids = self.archetypes[a].type_ids();
                let _ = type_ids.remove(remove_index);
                proof {
                    lemma_ascending_index_of(source.types, remove_index as int);
                    lemma_record_remove(
                        source.types,
                        source.row_values(row as int),
                        remove_index as int,
                    );
                }
                let bundle_id = calculate_bundle_id(type_ids.as_slice());
                let new_archetype_index = match self.find_archetype(&type_ids, bundle_id) {
                    Some(index) => index,
                    None => {
                        let archetype = self.archetypes[a].new_without_component(remove_index);
                        self.insert_archetype(bundle_id, archetype)
                    },
                };
                proof {
                    assert(self.layout() == with_archetype(layout, type_ids@));
                    assert(self.layout()[new_archetype_index as int].types == type_ids@);
                    assert(self.layout()[a as int] == source);
                    lemma_values_of_record(
                        type_ids@,
                        source.row_values(row as int).remove(remove_index as int),
                    );
                    lemma_canonical_of_ascending(type_ids@);
                    assert(type_ids@.to_set() =~= source.types.to_set().remove(type_id)) by {
                        lemma_remove_to_set(source.types, remove_index as int);
                    }
                    assert(source.columns[remove_index as int].len() == source.entities.len());
                    assert(source.row_values(row as int)[remove_index as int]
                        == source.columns[remove_index as int][row as int]);
                }
                let taken = self.move_row(entity, new_archetype_index, remove_index, None);
                Ok(taken.unwrap())
            },
            Err(_) => Err(
                ComponentError::EntityMissingComponent(
                    EntityMissingComponent::new(entity.index, type_id),
                ),
            ),
        }
    }

    /// Spawn an entity with the components of a bundle, which must not name
    /// a type twice.
    ///
    /// The entity takes the slot on top of the free list, with the slot's
    /// next generation, or a new slot if the list is empty. Its row is
    /// appended to the archetype for the bundle's set of types, whatever the
    /// order in which the bundle declares them.
    pub fn spawn<B: ComponentBundle<V>>(&mut self, b: B) -> (entity: Entity)
        requires
            old(self).wf(),
            distinct_types(b.components()),
        ensures
            final(self).wf(),
            !generation_wraps(old(self).entities@, old(self).free_entities@)
                ==> generations_advance(old(self).entities@, final(self).entities@),
            entity == next_entity(old(self).entities@, old(self).free_entities@),
            !old(self)@.contains_key(entity),
            final(self)@ == old(self)@.insert(entity, bundle_record(b.components())),
            final(self).layout() == layout_after_spawn(
                old(self).layout(),
                entity.index,
                b.components(),
            ),
            final(self).location(entity) == spawn_location(old(self).layout(), b.components()),
            final(self).entities@.len() == if old(self).free_entities@.len() > 0 {
                old(self).entities@.len()
            } else {
                old(self).entities@.len() + 1
            },
            final(self).free_entities@ == if old(self).free_entities@.len() > 0 {
                old(self).free_entities@.drop_last()
            } else {
                old(self).free_entities@
            },
            final(self).bundle_id_to_archetype@ == with_archetype_id(
                old(self).layout(),
                old(self).bundle_id_to_archetype@,
                canonical(bundle_types(b.components()).to_set()),
            ),
            forall|i: int|
                0 <= i < old(self).entities@.len() && i != entity.index ==> (
                #[trigger] final(self).entities@[i]).generation
                    == old(self).entities@[i].generation,
    {
        let ghost layout = self.layout();
        let ghost entities = self.entities@;
        let ghost free = self.free_entities@;
        let ghost components = b.components();
        let ghost target = canonical(bundle_types(components).to_set());
        let ghost grown = with_archetype(layout, target);
        let ghost a = archetype_position(layout, target);
        let ghost values = values_in_order(target, bundle_record(components));
        let (index, generation) = match self.free_entities.pop() {
            Some(index) => {
                assert(free[free.len() - 1] < entities.len());
                let generation: EntityId = self.entities[index as usize].generation.wrapping_add(
                    1,
                );
                (index, generation)
            },
            None => {
                // Push placeholder data
                self.entities.push(
                    EntityInfo {
                        generation: 0,
                        location: EntityLocation { archetype_index: 0, index_in_archetype: 0 },
                    },
                );
                ((self.entities.len() - 1) as EntityId, 0)
            },
        };

        let location = b.spawn_in_world(self, index);

        self.entities[index as usize] = EntityInfo { generation, location };
        proof {
            let reused = free.len() > 0;
            lemma_canonical_exists(bundle_types(components));
            lemma_bundle_record(components);
            lemma_record_of_values(target, bundle_record(components));
            if has_archetype(layout, target) {
                assert(0 <= a < layout.len() && layout[a].types == target);
            } else {
                assert(ArchetypeView::<V>::empty(target).wf());
                assert(self.layout().len() == grown.len());
                assert(self.archetypes@.len() == layout.len() + 1);
                assert(self.archetypes.len() == self.archetypes@.len());
                lemma_registry_push(layout, entities, free, ArchetypeView::<V>::empty(target));
                assert forall|i: int| 0 <= i < grown.len() implies (#[trigger] grown[i]).wf() by {
                    if i < layout.len() {
                        assert(layout[i].wf());
                    }
                }
            }
            assert(grown[a].types == target);
            assert(self.archetypes@[a].entities.len() == self.archetypes@[a].entities@.len());
            assert(self.layout()[a].entities.len() == grown[a].rows() + 1);
            if reused {
                assert(!entities[free.last() as int].occupied());
            } else {
                assert(self.entities.len() == self.entities@.len());
            }
            lemma_spawn(grown, entities, free, reused, generation, a, values);
            let info = EntityInfo { generation, location };
            assert(self.entities@ =~= if reused {
                entities.update(index as int, info)
            } else {
                entities.push(info)
            });
            assert(self.free_entities@ =~= if reused {
                free.drop_last()
            } else {
                free
            });
            assert(world_view(layout, entities) == world_view(grown, entities));
        }
        Entity { index, generation }
    }

    /// Spawn an entity with only a single component.
    pub fn spawn_single(&mut self, type_id: u64, t: V) -> (entity: Entity)
        requires
            old(self).wf(),
        ensures
            final(self).wf(),
            !generation_wraps(old(self).entities@, old(self).free_entities@)
                ==> generations_advance(old(self).entities@, final(self).entities@),
            entity == next_entity(old(self).entities@, old(self).free_entities@),
            !old(self)@.contains_key(entity),
            final(self)@ == old(self)@.insert(entity, bundle_record(seq![(type_id, t)])),
            final(self).layout() == layout_after_spawn(
                old(self).layout(),
                entity.index,
                seq![(type_id, t)],
            ),
            final(self).location(entity) == spawn_location(
                old(self).layout(),
                seq![(type_id, t)],
            ),
            final(self).entities@.len() == if old(self).free_entities@.len() > 0 {
                old(self).entities@.len()
            } else {
                old(self).entities@.len() + 1
            },
            final(self).free_entities@ == if old(self).free_entities@.len() > 0 {
                old(self).free_entities@.drop_last()
            } else {
                old(self).free_entities@
            },
            final(self).bundle_id_to_archetype@ == with_archetype_id(
                old(self).layout(),
                old(self).bundle_id_to_archetype@,
                canonical(bundle_types(seq![(type_id, t)]).to_set()),
            ),
            forall|i: int|
                0 <= i < old(self).entities@.len() && i != entity.index ==> (
                #[trigger] final(self).entities@[i]).generation
                    == old(self).entities@[i].generation,
    {
        let mut bundle: Vec<(u64, V)> = Vec::new();
        bundle.push((type_id, t));
        assert(bundle@ =~= seq![(type_id, t)]);
        self.spawn(bundle)
    }
}

} // verus!
