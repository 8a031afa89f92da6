//! Laws that relate the operations of a world to one another. Each is proved
//! from what the operations promise in their contracts, and from nothing
//! else.

use vstd::prelude::*;
use crate::archetype::ArchetypeView;
use crate::bundle::{bundle_record, bundle_types, distinct_types, lemma_bundle_record};
use crate::entity::{Entity, EntityInfo};
use crate::query::{
    first_holder, holds_single, lemma_first_holder, matches_query, query_rows, selected_rows,
};
use crate::record::{canonical, lemma_canonical_exists, values_in_order};
use crate::registry::{generations_advance, location_at, owns, placed, retired};
use crate::world::{
    archetype_position, has_archetype, layout_after_move, layout_after_spawn,
    lemma_archetype_position, next_entity, spawn_location, with_archetype, World,
};

verus! {

/// Components given at spawn time can be read back.
///
/// `spawn` leaves a world that maps the new handle to the record of the
/// bundle. In such a world the handle is live and has, for every component
/// that the bundle declares, a component of that type with the declared
/// value: exactly the case in which `get_component_mut` succeeds and hands
/// out a reference to that value.
pub proof fn lemma_spawned_components_readable<V>(
    before: World<V>,
    components: Seq<(u64, V)>,
    after: World<V>,
    entity: Entity,
    k: int,
)
    requires
        distinct_types(components),
        after@ == before@.insert(entity, bundle_record(components)),
        0 <= k < components.len(),
    ensures
        after@.contains_key(entity),
        after@[entity].contains_key(components[k].0),
        after@[entity][components[k].0] == components[k].1,
{
    lemma_bundle_record(components);
}

/// A despawned handle is retired.
///
/// `despawn` of a live handle gives the handle's slot the generation that
/// follows the handle's own, so the handle is older than its slot from then
/// on.
pub proof fn lemma_despawned_is_retired<V>(before: World<V>, after: World<V>, entity: Entity)
    requires
        before.contains(entity),
        after.entities@.len() == before.entities@.len(),
        after.entities@[entity.index as int].generation == entity.generation + 1,
    ensures
        retired(after.entities@, entity),
{
}

/// A retired handle is not live.
///
/// Every operation that takes a handle fails with `NoSuchEntity` on one
/// that the world does not contain; so it does on a retired one.
pub proof fn lemma_retired_is_rejected<V>(world: World<V>, entity: Entity)
    requires
        retired(world.entities@, entity),
    ensures
        !world.contains(entity),
        !world@.contains_key(entity),
{
}

/// A retired handle stays retired as long as no generation goes down.
pub proof fn lemma_retired_persists(
    before: Seq<EntityInfo>,
    after: Seq<EntityInfo>,
    entity: Entity,
)
    requires
        retired(before, entity),
        generations_advance(before, after),
    ensures
        retired(after, entity),
{
    assert(before[entity.index as int].generation <= after[entity.index as int].generation);
}

/// Through a series of worlds in which no generation ever goes down from
/// one to the next, a handle that is retired in the first is retired in
/// every one.
pub proof fn lemma_retired_for_good<V>(worlds: Seq<World<V>>, entity: Entity, k: int)
    requires
        0 <= k < worlds.len(),
        retired(worlds[0].entities@, entity),
        forall|i: int|
            0 <= i < worlds.len() - 1 ==> generations_advance(
                (#[trigger] worlds[i]).entities@,
                worlds[i + 1].entities@,
            ),
    ensures
        retired(worlds[k].entities@, entity),
        !worlds[k].contains(entity),
        !worlds[k]@.contains_key(entity),
    decreases k,
{
    if k > 0 {
        lemma_retired_for_good(worlds, entity, k - 1);
        assert(generations_advance(worlds[k - 1].entities@, worlds[k].entities@));
        lemma_retired_persists(worlds[k - 1].entities@, worlds[k].entities@, entity);
    }
}

/// A despawned handle is rejected ever after.
///
/// Take a world that contains a handle, the world that `despawn` of the
/// handle leaves, and the worlds that any number of further operations
/// leave, one after the other. Every operation promises that no
/// generation goes down (`spawn` unless it lets a generation start again
/// from zero, which is left out here). Then none of these worlds contains
/// the handle, whichever slots were reused in between: every operation
/// given the handle fails with `NoSuchEntity` and changes nothing.
pub proof fn lemma_despawned_handle_stays_rejected<V>(
    worlds: Seq<World<V>>,
    entity: Entity,
    k: int,
)
    requires
        1 <= k < worlds.len(),
        worlds[0].contains(entity),
        worlds[1].entities@.len() == worlds[0].entities@.len(),
        worlds[1].entities@[entity.index as int].generation == entity.generation + 1,
        forall|i: int|
            1 <= i < worlds.len() - 1 ==> generations_advance(
                (#[trigger] worlds[i]).entities@,
                worlds[i + 1].entities@,
            ),
    ensures
        retired(worlds[k].entities@, entity),
        !worlds[k].contains(entity),
        !worlds[k]@.contains_key(entity),
{
    let later = worlds.skip(1);
    assert(retired(later[0].entities@, entity));
    assert forall|i: int| 0 <= i < later.len() - 1 implies generations_advance(
        (#[trigger] later[i]).entities@,
        later[i + 1].entities@,
    ) by {
        assert(later[i] == worlds[i + 1]);
        assert(generations_advance(worlds[i + 1].entities@, worlds[i + 2].entities@));
    }
    lemma_retired_for_good(later, entity, k - 1);
}

/// A handle despawned before a spawn is still rejected after it, also when
/// the spawn reuses the handle's slot.
///
/// The one exception is the first handle ever issued for a slot, at the
/// moment when the slot has been reused so often that its generation starts
/// again from zero: that spawn issues the same handle anew.
pub proof fn lemma_stale_after_reuse<V>(before: World<V>, after: World<V>, stale: Entity, spawned: Entity)
    requires
        before.wf(),
        retired(before.entities@, stale),
        spawned == next_entity(before.entities@, before.free_entities@),
        !(stale.generation == 0 && before.free_entities@.len() > 0
            && before.free_entities@.last() == stale.index
            && before.entities@[stale.index as int].generation == u64::MAX),
        after.contains(spawned),
        after.entities@.len() == if before.free_entities@.len() > 0 {
            before.entities@.len()
        } else {
            before.entities@.len() + 1
        },
        forall|i: int|
            0 <= i < before.entities@.len() && i != spawned.index ==> (
            #[trigger] after.entities@[i]).generation == before.entities@[i].generation,
    ensures
        spawned != stale,
        !after.contains(stale),
        !after@.contains_key(stale),
{
    if spawned.index == stale.index {
        assert(before.free_entities@.len() > 0);
        assert(after.entities@[stale.index as int].generation == spawned.generation);
    } else {
        assert(after.entities@[stale.index as int].generation
            == before.entities@[stale.index as int].generation);
    }
}

/// Adding a component and removing it again is a round trip.
///
/// After `add_component(entity, type_id, value)` on a live handle,
/// `remove_component(entity, type_id)` succeeds and returns `value`. It
/// leaves the entity with every other component it had before the two
/// calls, each with the value it had, and leaves every other entity as it
/// was. If the entity had no component of that type before, the world
/// stands for exactly what it stood for before.
pub proof fn lemma_add_remove_round_trip<V>(
    before: World<V>,
    added: World<V>,
    removed: World<V>,
    entity: Entity,
    type_id: u64,
    value: V,
)
    requires
        before@.contains_key(entity),
        added@ == before@.insert(entity, before@[entity].insert(type_id, value)),
        removed@ == added@.insert(entity, added@[entity].remove(type_id)),
    ensures
        added@.contains_key(entity),
        added@[entity].contains_key(type_id),
        added@[entity][type_id] == value,
        removed@.contains_key(entity),
        removed@[entity] == before@[entity].remove(type_id),
        removed@.remove(entity) == before@.remove(entity),
        !before@[entity].contains_key(type_id) ==> removed@ == before@,
{
    assert(removed@[entity] =~= before@[entity].remove(type_id));
    assert(removed@.remove(entity) =~= before@.remove(entity));
    if !before@[entity].contains_key(type_id) {
        assert(before@[entity].remove(type_id) =~= before@[entity]);
        assert(removed@ =~= before@);
    }
}

/// The order in which a bundle declares its components does not matter
/// for where its entity is stored.
///
/// If a world is left by a `spawn` with one bundle, a `spawn` with any
/// bundle of the same set of types puts its entity in the same archetype,
/// and creates none.
pub proof fn lemma_same_types_same_archetype<V>(
    before: World<V>,
    first: Seq<(u64, V)>,
    after: World<V>,
    entity: Entity,
    second: Seq<(u64, V)>,
)
    requires
        before.wf(),
        after.wf(),
        after.layout() == layout_after_spawn(before.layout(), entity.index, first),
        bundle_types(first).to_set() == bundle_types(second).to_set(),
    ensures
        spawn_location(after.layout(), second).archetype_index == spawn_location(
            before.layout(),
            first,
        ).archetype_index,
        has_archetype(after.layout(), canonical(bundle_types(second).to_set())),
        with_archetype(after.layout(), canonical(bundle_types(second).to_set()))
            == after.layout(),
{
    let target = canonical(bundle_types(first).to_set());
    let layout = before.layout();
    let grown = with_archetype(layout, target);
    let a = archetype_position(layout, target);
    lemma_canonical_exists(bundle_types(first));
    if has_archetype(layout, target) {
        assert(0 <= a < layout.len() && layout[a].types == target);
    }
    assert(0 <= a < grown.len());
    assert(grown[a].types == target);
    assert(after.layout()[a].types == target);
    lemma_archetype_position(after.layout(), target, a);
}

/// Swap-removal keeps the displaced entity reachable.
///
/// When `despawn` removes an entity that did not own the last row of its
/// archetype, the entity that owned the last row now owns the vacated row.
/// Its handle is still live, finds it there, and its components are what
/// they were.
pub proof fn lemma_displaced_entity_reachable<V>(before: World<V>, after: World<V>, entity: Entity)
    requires
        before.wf(),
        after.wf(),
        before.contains(entity),
        before.location(entity).index_in_archetype + 1
            < before.layout()[before.location(entity).archetype_index as int].rows(),
        after@ == before@.remove(entity),
        after.layout() == before.layout().update(
            before.location(entity).archetype_index as int,
            before.layout()[before.location(entity).archetype_index as int].without_row(
                before.location(entity).index_in_archetype as int,
            ),
        ),
    ensures
        ({
            let a = before.location(entity).archetype_index as int;
            let displaced = Entity {
                index: before.layout()[a].entities.last(),
                generation: before.entities@[before.layout()[a].entities.last() as int].generation,
            };
            &&& displaced != entity
            &&& before.contains(displaced)
            &&& after.contains(displaced)
            &&& after@[displaced] == before@[displaced]
            &&& after.location(displaced) == before.location(entity)
        }),
{
    let layout = before.layout();
    let a = before.location(entity).archetype_index as int;
    let row = before.location(entity).index_in_archetype as int;
    assert(placed(layout, before.entities@[entity.index as int], entity.index as int));
    let rows = layout[a].rows() as int;
    let last = layout[a].entities.last();
    assert(owns(before.entities@, layout[a].entities[rows - 1], a, rows - 1));
    let displaced = Entity { index: last, generation: before.entities@[last as int].generation };
    assert(before@.contains_key(displaced));
    assert(after@.contains_key(displaced));
    assert(after.layout()[a].entities[row] == last);
    assert(owns(after.entities@, after.layout()[a].entities[row], a, row));
    assert(location_at(a, row) == before.location(entity));
}

/// Migration keeps the displaced entity reachable.
///
/// When `add_component` or `remove_component` moves an entity that did not
/// own the last row of its archetype to another archetype, the entity that
/// owned the last row now owns the vacated row. Its handle is still live,
/// finds it there, and its components are what they were.
pub proof fn lemma_displaced_entity_reachable_after_move<V>(
    before: World<V>,
    after: World<V>,
    entity: Entity,
    target: Seq<u64>,
    components: Map<u64, V>,
)
    requires
        before.wf(),
        after.wf(),
        before.contains(entity),
        before.location(entity).index_in_archetype + 1
            < before.layout()[before.location(entity).archetype_index as int].rows(),
        target != before.layout()[before.location(entity).archetype_index as int].types,
        after@ == before@.insert(entity, components),
        after.layout() == layout_after_move(
            before.layout(),
            before.location(entity),
            entity.index,
            target,
            components,
        ),
    ensures
        ({
            let a = before.location(entity).archetype_index as int;
            let displaced = Entity {
                index: before.layout()[a].entities.last(),
                generation: before.entities@[before.layout()[a].entities.last() as int].generation,
            };
            &&& displaced != entity
            &&& before.contains(displaced)
            &&& after.contains(displaced)
            &&& after@[displaced] == before@[displaced]
            &&& after.location(displaced) == before.location(entity)
        }),
{
    let layout = before.layout();
    let a = before.location(entity).archetype_index as int;
    let row = before.location(entity).index_in_archetype as int;
    assert(placed(layout, before.entities@[entity.index as int], entity.index as int));
    let rows = layout[a].rows() as int;
    let last = layout[a].entities.last();
    assert(owns(before.entities@, layout[a].entities[rows - 1], a, rows - 1));
    let displaced = Entity { index: last, generation: before.entities@[last as int].generation };
    assert(before@.contains_key(displaced));
    assert(after@.contains_key(displaced));
    let grown = with_archetype(layout, target);
    let b = archetype_position(layout, target);
    if has_archetype(layout, target) {
        assert(0 <= b < layout.len() && layout[b].types == target);
    }
    assert(b != a);
    assert(after.layout()[a] == layout[a].without_row(row));
    assert(after.layout()[a].entities[row] == last);
    assert(owns(after.entities@, after.layout()[a].entities[row], a, row));
    assert(location_at(a, row) == before.location(entity));
}

/// `get_single` is the query for one type, cut down to its first result.
///
/// A world holds a component of type `type_id` exactly when the query for
/// that type alone yields a row; the first such row then lists the value
/// that `get_single` finds.
pub proof fn lemma_single_is_first_row<V>(layout: Seq<ArchetypeView<V>>, type_id: u64)
    ensures
        first_holder(layout, type_id) is Some <==> query_rows(layout, seq![type_id]).len() > 0,
        first_holder(layout, type_id) matches Some(i) ==> query_rows(layout, seq![type_id])[0]
            == seq![layout[i].row(0)[type_id]],
    decreases layout.len(),
{
    let types = seq![type_id];
    if layout.len() > 0 {
        let front = layout.drop_last();
        let last = layout.last();
        lemma_single_is_first_row(front, type_id);
        lemma_first_holder(front, type_id);
        assert(types[0] == type_id);
        assert(matches_query(last, types) <==> last.types.contains(type_id)) by {
            if last.types.contains(type_id) {
                assert forall|k: int| 0 <= k < types.len() implies last.types.contains(
                    #[trigger] types[k],
                ) by {}
            }
        }
        match first_holder(front, type_id) {
            Some(i) => {
                assert(front[i] == layout[i]);
            },
            None => {
                assert(query_rows(front, types).len() == 0);
                if holds_single(last, type_id) {
                    assert(query_rows(layout, types)[0] == selected_rows(last, types)[0]);
                    assert(values_in_order(types, last.row(0)) =~= seq![last.row(0)[type_id]]);
                }
            },
        }
    }
}

} // verus!
