//! How the entity registry and the archetypes refer to each other, and what
//! a world stands for: a map from live handles to their components.

use vstd::prelude::*;
use crate::archetype::{lemma_with_row, lemma_with_value, lemma_without_row, ArchetypeView};
use crate::bundle::bundle_id;
use crate::entity::{Entity, EntityId, EntityInfo, EntityLocation};
use crate::record::record;

verus! {

/// The location that names row `r` of archetype `a`.
pub open spec fn location_at(a: int, r: int) -> EntityLocation {
    EntityLocation { archetype_index: a as u64, index_in_archetype: r as u64 }
}

/// The registry with slot `e` pointing at row `r` of archetype `a`.
pub open spec fn set_location(entities: Seq<EntityInfo>, e: int, a: int, r: int) -> Seq<
    EntityInfo,
> {
    entities.update(
        e,
        EntityInfo { generation: entities[e].generation, location: location_at(a, r) },
    )
}

/// Slot `e` is occupied and points at row `r` of archetype `a`.
pub open spec fn owns(entities: Seq<EntityInfo>, e: EntityId, a: int, r: int) -> bool {
    &&& e < entities.len()
    &&& entities[e as int].occupied()
    &&& entities[e as int].location.archetype_index == a
    &&& entities[e as int].location.index_in_archetype == r
}

/// Slot `e`, with content `info`, points at a row that names `e` as its owner.
pub open spec fn placed<V>(layout: Seq<ArchetypeView<V>>, info: EntityInfo, e: int) -> bool {
    let a = info.location.archetype_index as int;
    let r = info.location.index_in_archetype as int;
    &&& a < layout.len()
    &&& r < layout[a].entities.len()
    &&& layout[a].entities[r] == e
}

/// Every archetype keeps its columns sorted and in lockstep with its rows.
pub open spec fn archetypes_wf<V>(layout: Seq<ArchetypeView<V>>) -> bool {
    forall|i: int| 0 <= i < layout.len() ==> (#[trigger] layout[i]).wf()
}

/// No two archetypes stand for the same set of types.
pub open spec fn archetypes_distinct<V>(layout: Seq<ArchetypeView<V>>) -> bool {
    forall|i: int, j: int|
        0 <= i < j < layout.len() ==> (#[trigger] layout[i]).types != (#[trigger] layout[j]).types
}

/// What a lookup relies on: the lookup table knows the identifier of every
/// archetype's type sequence, and every entry of it points at an archetype
/// that exists.
pub open spec fn archetypes_findable<V>(layout: Seq<ArchetypeView<V>>, ids: Map<u64, usize>) -> bool {
    &&& forall|i: int|
        0 <= i < layout.len() ==> ids.contains_key(bundle_id((#[trigger] layout[i]).types))
    &&& forall|k: u64| #[trigger] ids.contains_key(k) ==> ids[k] < layout.len()
}

/// The lookup table holds the identifiers of the archetypes' type sequences
/// and nothing else: each entry points at an archetype whose type sequence
/// has the entry's key as its identifier.
pub open spec fn archetypes_indexed<V>(layout: Seq<ArchetypeView<V>>, ids: Map<u64, usize>) -> bool {
    &&& archetypes_findable(layout, ids)
    &&& forall|k: u64| #[trigger]
        ids.contains_key(k) ==> bundle_id(layout[ids[k] as int].types) == k
}

/// The archetypes by themselves are consistent.
pub open spec fn layout_wf<V>(layout: Seq<ArchetypeView<V>>, ids: Map<u64, usize>) -> bool {
    &&& archetypes_wf(layout)
    &&& archetypes_distinct(layout)
    &&& archetypes_indexed(layout, ids)
}

/// Every row belongs to an occupied slot that points back at it.
pub open spec fn rows_owned<V>(layout: Seq<ArchetypeView<V>>, entities: Seq<EntityInfo>) -> bool {
    forall|a: int, r: int|
        0 <= a < layout.len() && 0 <= r < layout[a].entities.len() ==> owns(
            entities,
            #[trigger] layout[a].entities[r],
            a,
            r,
        )
}

/// Every occupied slot points at a row that names it.
pub open spec fn entities_placed<V>(
    layout: Seq<ArchetypeView<V>>,
    entities: Seq<EntityInfo>,
) -> bool {
    forall|e: int|
        0 <= e < entities.len() && (#[trigger] entities[e]).occupied() ==> placed(
            layout,
            entities[e],
            e,
        )
}

/// The free list holds exactly the unoccupied slots, each once.
pub open spec fn free_list_wf(entities: Seq<EntityInfo>, free: Seq<EntityId>) -> bool {
    &&& free.no_duplicates()
    &&& forall|k: int|
        0 <= k < free.len() ==> (#[trigger] free[k]) < entities.len() && !entities[free[k] as int].occupied()
    &&& forall|e: int|
        0 <= e < entities.len() && !(#[trigger] entities[e]).occupied() ==> free.contains(e as u64)
}

/// Registry and archetypes agree: live entities and rows are in one-to-one
/// correspondence, and the free list holds the rest of the slots.
pub open spec fn registry_wf<V>(
    layout: Seq<ArchetypeView<V>>,
    entities: Seq<EntityInfo>,
    free: Seq<EntityId>,
) -> bool {
    &&& layout.len() <= usize::MAX
    &&& entities.len() <= usize::MAX
    &&& forall|i: int| 0 <= i < layout.len() ==> (#[trigger] layout[i]).entities.len() <= usize::MAX
    &&& rows_owned(layout, entities)
    &&& entities_placed(layout, entities)
    &&& free_list_wf(entities, free)
}

/// A handle is live when its slot exists, is occupied, and carries the
/// handle's generation.
pub open spec fn live(entities: Seq<EntityInfo>, e: Entity) -> bool {
    &&& e.index < entities.len()
    &&& entities[e.index as int].generation == e.generation
    &&& entities[e.index as int].occupied()
}

/// The handle is older than its slot: if it ever named an entity, that
/// entity has been despawned.
pub open spec fn retired(entities: Seq<EntityInfo>, e: Entity) -> bool {
    &&& e.index < entities.len()
    &&& e.generation < entities[e.index as int].generation
}

/// Both registries have the same slots, each with the same generation.
pub open spec fn same_generations(before: Seq<EntityInfo>, after: Seq<EntityInfo>) -> bool {
    &&& after.len() == before.len()
    &&& forall|i: int|
        0 <= i < before.len() ==> (#[trigger] after[i]).generation == before[i].generation
}

/// Every slot of `before` is still there in `after`, with a generation that
/// is no smaller.
pub open spec fn generations_advance(before: Seq<EntityInfo>, after: Seq<EntityInfo>) -> bool {
    &&& before.len() <= after.len()
    &&& forall|i: int|
        0 <= i < before.len() ==> before[i].generation <= (#[trigger] after[i]).generation
}

/// The components stored in the row that `location` names.
pub open spec fn components_at<V>(layout: Seq<ArchetypeView<V>>, location: EntityLocation) -> Map<
    u64,
    V,
> {
    layout[location.archetype_index as int].row(location.index_in_archetype as int)
}

/// What a world stands for: every live handle mapped to its components.
pub open spec fn world_view<V>(layout: Seq<ArchetypeView<V>>, entities: Seq<EntityInfo>) -> Map<
    Entity,
    Map<u64, V>,
> {
    Map::new(
        |e: Entity| live(entities, e),
        |e: Entity| components_at(layout, entities[e.index as int].location),
    )
}

/// Replacing an archetype by one with the same types keeps the archetypes
/// consistent among themselves.
pub proof fn lemma_layout_update<V>(
    layout: Seq<ArchetypeView<V>>,
    ids: Map<u64, usize>,
    i: int,
    archetype: ArchetypeView<V>,
)
    requires
        layout_wf(layout, ids),
        0 <= i < layout.len(),
        archetype.wf(),
        archetype.types == layout[i].types,
    ensures
        layout_wf(layout.update(i, archetype), ids),
{
    let after = layout.update(i, archetype);
    assert forall|j: int| 0 <= j < after.len() implies (#[trigger] after[j]).wf() by {
        if j != i {
            assert(layout[j].wf());
        }
    }
    assert forall|j: int, k: int| 0 <= j < k < after.len() implies (#[trigger] after[j]).types != (
    #[trigger] after[k]).types by {
        assert(layout[j].types != layout[k].types);
    }
    assert forall|j: int| 0 <= j < after.len() implies ids.contains_key(
        bundle_id((#[trigger] after[j]).types),
    ) by {
        assert(ids.contains_key(bundle_id(layout[j].types)));
    }
    assert forall|k: u64| #[trigger] ids.contains_key(k) implies bundle_id(
        after[ids[k] as int].types,
    ) == k by {
        assert(after[ids[k] as int].types == layout[ids[k] as int].types);
    }
}

/// Appending an empty archetype for a set of types that no archetype has yet,
/// and entering it in the lookup table, keeps the archetypes consistent.
pub proof fn lemma_layout_push<V>(
    layout: Seq<ArchetypeView<V>>,
    ids: Map<u64, usize>,
    archetype: ArchetypeView<V>,
)
    requires
        layout_wf(layout, ids),
        layout.len() < usize::MAX,
        archetype.wf(),
        forall|i: int| 0 <= i < layout.len() ==> (#[trigger] layout[i]).types != archetype.types,
    ensures
        layout_wf(
            layout.push(archetype),
            ids.insert(bundle_id(archetype.types), layout.len() as usize),
        ),
{
    let after = layout.push(archetype);
    let ids2 = ids.insert(bundle_id(archetype.types), layout.len() as usize);
    assert forall|j: int| 0 <= j < after.len() implies (#[trigger] after[j]).wf() by {
        if j < layout.len() {
            assert(layout[j].wf());
        }
    }
    assert forall|j: int, k: int| 0 <= j < k < after.len() implies (#[trigger] after[j]).types != (
    #[trigger] after[k]).types by {
        if k < layout.len() {
            assert(layout[j].types != layout[k].types);
        } else {
            assert(layout[j].types != archetype.types);
        }
    }
    assert forall|j: int| 0 <= j < after.len() implies ids2.contains_key(
        bundle_id((#[trigger] after[j]).types),
    ) by {
        if j < layout.len() {
            assert(ids.contains_key(bundle_id(layout[j].types)));
        }
    }
    assert forall|k: u64| #[trigger] ids2.contains_key(k) implies ids2[k] < after.len()
        && bundle_id(after[ids2[k] as int].types) == k by {
        if k != bundle_id(archetype.types) {
            assert(ids.contains_key(k));
            assert(after[ids[k] as int] == layout[ids[k] as int]);
        }
    }
}

/// Appending an archetype without rows changes no entity, and leaves
/// registry and archetypes in agreement.
pub proof fn lemma_registry_push<V>(
    layout: Seq<ArchetypeView<V>>,
    entities: Seq<EntityInfo>,
    free: Seq<EntityId>,
    archetype: ArchetypeView<V>,
)
    requires
        registry_wf(layout, entities, free),
        layout.len() < usize::MAX,
        archetype.rows() == 0,
    ensures
        registry_wf(layout.push(archetype), entities, free),
        world_view(layout.push(archetype), entities) == world_view(layout, entities),
{
    let after = layout.push(archetype);
    assert forall|i: int| 0 <= i < after.len() implies (#[trigger] after[i]).entities.len()
        <= usize::MAX by {
        if i < layout.len() {
            assert(layout[i].entities.len() <= usize::MAX);
        }
    }
    assert forall|a: int, r: int|
        0 <= a < after.len() && 0 <= r < after[a].entities.len() implies owns(
        entities,
        #[trigger] after[a].entities[r],
        a,
        r,
    ) by {
        assert(owns(entities, layout[a].entities[r], a, r));
    }
    assert forall|e: int| 0 <= e < entities.len() && (#[trigger] entities[e]).occupied() implies placed(
        after,
        entities[e],
        e,
    ) by {
        assert(placed(layout, entities[e], e));
    }
    assert forall|h: Entity| live(entities, h) implies components_at(
        after,
        entities[h.index as int].location,
    ) == components_at(layout, entities[h.index as int].location) by {
        assert(placed(layout, entities[h.index as int], h.index as int));
    }
    assert(world_view(after, entities) =~= world_view(layout, entities));
}

/// Two live handles with the same index are the same handle.
pub proof fn lemma_live_unique(entities: Seq<EntityInfo>, x: Entity, y: Entity)
    requires
        live(entities, x),
        live(entities, y),
        x.index == y.index,
    ensures
        x == y,
{
}

/// Overwriting one component of a live entity in place changes that
/// component in the entity's record and nothing else.
pub proof fn lemma_replace_value<V>(
    layout: Seq<ArchetypeView<V>>,
    entities: Seq<EntityInfo>,
    free: Seq<EntityId>,
    x: Entity,
    column: int,
    value: V,
)
    requires
        archetypes_wf(layout),
        registry_wf(layout, entities, free),
        live(entities, x),
        0 <= column < layout[entities[x.index as int].location.archetype_index as int].types.len(),
    ensures
        ({
            let a = entities[x.index as int].location.archetype_index as int;
            let r = entities[x.index as int].location.index_in_archetype as int;
            let after = layout.update(a, layout[a].with_value(r, column, value));
            &&& 0 <= a < layout.len()
            &&& 0 <= r < layout[a].rows()
            &&& layout[a].with_value(r, column, value).wf()
            &&& registry_wf(after, entities, free)
            &&& world_view(after, entities) == world_view(layout, entities).insert(
                x,
                world_view(layout, entities)[x].insert(layout[a].types[column], value),
            )
        }),
{
    let a = entities[x.index as int].location.archetype_index as int;
    let r = entities[x.index as int].location.index_in_archetype as int;
    assert(placed(layout, entities[x.index as int], x.index as int));
    assert(layout[a].wf());
    lemma_with_value(layout[a], r, column, value);
    let after = layout.update(a, layout[a].with_value(r, column, value));
    assert forall|i: int| 0 <= i < after.len() implies (#[trigger] after[i]).entities.len()
        <= usize::MAX by {
        assert(layout[i].entities.len() <= usize::MAX);
    }
    assert forall|a2: int, r2: int|
        0 <= a2 < after.len() && 0 <= r2 < after[a2].entities.len() implies owns(
        entities,
        #[trigger] after[a2].entities[r2],
        a2,
        r2,
    ) by {
        assert(owns(entities, layout[a2].entities[r2], a2, r2));
    }
    assert forall|e: int| 0 <= e < entities.len() && (#[trigger] entities[e]).occupied() implies placed(
        after,
        entities[e],
        e,
    ) by {
        assert(placed(layout, entities[e], e));
    }
    let before_view = world_view(layout, entities);
    let after_view = world_view(after, entities);
    let expected = before_view.insert(x, before_view[x].insert(layout[a].types[column], value));
    assert forall|h: Entity| after_view.contains_key(h) implies after_view[h] == expected[h] by {
        assert(placed(layout, entities[h.index as int], h.index as int));
        let a2 = entities[h.index as int].location.archetype_index as int;
        let r2 = entities[h.index as int].location.index_in_archetype as int;
        if h.index == x.index {
            lemma_live_unique(entities, x, h);
        } else if a2 == a {
            assert(owns(entities, layout[a].entities[r2], a, r2));
            assert(owns(entities, layout[a].entities[r], a, r));
            assert(r2 != r);
            assert(layout[a].with_value(r, column, value).row(r2) == layout[a].row(r2));
        }
    }
    assert(after_view =~= expected);
}

/// Moving a live entity's row from its archetype to the end of another one,
/// and pointing the registry at the two rows that changed place, keeps
/// registry and archetypes in agreement. The moved entity then has the
/// record made of the destination's types and the given values; every other
/// entity has the components it had.
pub proof fn lemma_relocate<V>(
    layout: Seq<ArchetypeView<V>>,
    entities: Seq<EntityInfo>,
    free: Seq<EntityId>,
    x: Entity,
    b: int,
    values: Seq<V>,
)
    requires
        archetypes_wf(layout),
        registry_wf(layout, entities, free),
        live(entities, x),
        0 <= b < layout.len(),
        b != entities[x.index as int].location.archetype_index,
        values.len() == layout[b].types.len(),
        layout[b].rows() < usize::MAX,
    ensures
        ({
            let a = entities[x.index as int].location.archetype_index as int;
            let r = entities[x.index as int].location.index_in_archetype as int;
            let moved = layout[a].entities.last() as int;
            let layout2 = layout.update(a, layout[a].without_row(r)).update(
                b,
                layout[b].with_row(x.index, values),
            );
            let entities2 = set_location(
                set_location(entities, moved, a, r),
                x.index as int,
                b,
                layout[b].rows() as int,
            );
            &&& 0 <= a < layout.len()
            &&& 0 <= r < layout[a].rows()
            &&& 0 <= moved < entities.len()
            &&& archetypes_wf(layout2)
            &&& registry_wf(layout2, entities2, free)
            &&& world_view(layout2, entities2) == world_view(layout, entities).insert(
                x,
                record(layout[b].types, values),
            )
        }),
{
    let xi = x.index as int;
    let a = entities[xi].location.archetype_index as int;
    let r = entities[xi].location.index_in_archetype as int;
    assert(placed(layout, entities[xi], xi));
    let rows_a = layout[a].rows() as int;
    let rows_b = layout[b].rows() as int;
    let moved = layout[a].entities.last() as int;
    assert(owns(entities, layout[a].entities[rows_a - 1], a, rows_a - 1));
    assert(layout[a].wf());
    assert(layout[b].wf());
    lemma_without_row(layout[a], r);
    lemma_with_row(layout[b], x.index, values);
    let arch_a = layout[a].without_row(r);
    let arch_b = layout[b].with_row(x.index, values);
    let layout2 = layout.update(a, arch_a).update(b, arch_b);
    let entities1 = set_location(entities, moved, a, r);
    let entities2 = set_location(entities1, xi, b, rows_b);
    assert(layout[a].entities.len() <= usize::MAX);
    assert(layout[b].entities.len() <= usize::MAX);
    assert(location_at(a, r).archetype_index == a && location_at(a, r).index_in_archetype == r);
    assert(location_at(b, rows_b).archetype_index == b && location_at(b, rows_b).index_in_archetype
        == rows_b);
    // what the new registry says of each slot
    assert(entities2[xi].location == location_at(b, rows_b));
    assert(entities2[xi].generation == entities[xi].generation);
    assert(moved != xi ==> entities2[moved].location == location_at(a, r)
        && entities2[moved].generation == entities[moved].generation);
    assert forall|e: int| 0 <= e < entities.len() && e != xi && e != moved implies #[trigger] entities2[e]
        == entities[e] by {}
    assert forall|e: int| 0 <= e < entities.len() implies (#[trigger] entities2[e]).generation
        == entities[e].generation by {}
    assert(moved != xi ==> r < rows_a - 1);

    assert forall|i: int| 0 <= i < layout2.len() implies (#[trigger] layout2[i]).wf() by {
        if i != a && i != b {
            assert(layout[i].wf());
        }
    }
    assert forall|i: int| 0 <= i < layout2.len() implies (#[trigger] layout2[i]).entities.len()
        <= usize::MAX by {
        assert(layout[i].entities.len() <= usize::MAX);
    }
    assert forall|a2: int, r2: int|
        0 <= a2 < layout2.len() && 0 <= r2 < layout2[a2].entities.len() implies owns(
        entities2,
        #[trigger] layout2[a2].entities[r2],
        a2,
        r2,
    ) by {
        if a2 == a {
            let r0 = if r2 == r {
                rows_a - 1
            } else {
                r2
            };
            assert(arch_a.entities[r2] == layout[a].entities[r0]);
            assert(owns(entities, layout[a].entities[r0], a, r0));
        } else if a2 == b {
            if r2 < rows_b {
                assert(owns(entities, layout[b].entities[r2], b, r2));
            }
        } else {
            assert(owns(entities, layout[a2].entities[r2], a2, r2));
        }
    }
    assert forall|e: int| 0 <= e < entities2.len() && (#[trigger] entities2[e]).occupied() implies placed(
        layout2,
        entities2[e],
        e,
    ) by {
        assert(entities[e].occupied());
        assert(placed(layout, entities[e], e));
        if e == xi {
        } else if e == moved {
            assert(arch_a.entities[r] == layout[a].entities[rows_a - 1]);
        } else {
            let a2 = entities[e].location.archetype_index as int;
            let r2 = entities[e].location.index_in_archetype as int;
            if a2 == a {
                assert(r2 != r);
                assert(r2 != rows_a - 1);
                assert(arch_a.entities[r2] == layout[a].entities[r2]);
            }
        }
    }
    assert forall|k: int| 0 <= k < free.len() implies (#[trigger] free[k]) < entities2.len()
        && !entities2[free[k] as int].occupied() by {}
    assert forall|e: int| 0 <= e < entities2.len() && !(#[trigger] entities2[e]).occupied() implies free.contains(
        e as u64,
    ) by {
        assert(!entities[e].occupied());
    }

    let before_view = world_view(layout, entities);
    let after_view = world_view(layout2, entities2);
    let expected = before_view.insert(x, record(layout[b].types, values));
    assert forall|h: Entity| live(entities2, h) <==> live(entities, h) by {}
    assert forall|h: Entity| after_view.contains_key(h) implies after_view[h] == expected[h] by {
        let e = h.index as int;
        assert(placed(layout, entities[e], e));
        if e == xi {
            lemma_live_unique(entities, x, h);
        } else if e == moved {
            assert(arch_a.row(r) == layout[a].row(rows_a - 1));
        } else {
            let a2 = entities[e].location.archetype_index as int;
            let r2 = entities[e].location.index_in_archetype as int;
            if a2 == a {
                assert(r2 != r);
                assert(r2 != rows_a - 1);
                assert(arch_a.row(r2) == layout[a].row(r2));
            } else if a2 == b {
                assert(arch_b.row(r2) == layout[b].row(r2));
            }
        }
    }
    assert(after_view =~= expected);
}

/// Removing a live entity's row, bumping the generation of its slot to an odd
/// number, putting the slot on the free list and pointing the registry at the
/// row that took the vacated place, keeps registry and archetypes in
/// agreement. The handle is gone from the world; nothing else changes.
pub proof fn lemma_despawn<V>(
    layout: Seq<ArchetypeView<V>>,
    entities: Seq<EntityInfo>,
    free: Seq<EntityId>,
    x: Entity,
)
    requires
        archetypes_wf(layout),
        registry_wf(layout, entities, free),
        live(entities, x),
    ensures
        ({
            let a = entities[x.index as int].location.archetype_index as int;
            let r = entities[x.index as int].location.index_in_archetype as int;
            let moved = layout[a].entities.last() as int;
            let layout2 = layout.update(a, layout[a].without_row(r));
            let entities1 = entities.update(
                x.index as int,
                EntityInfo {
                    generation: (x.generation + 1) as u64,
                    location: entities[x.index as int].location,
                },
            );
            let entities2 = set_location(entities1, moved, a, r);
            &&& 0 <= a < layout.len()
            &&& 0 <= r < layout[a].rows()
            &&& 0 <= moved < entities.len()
            &&& x.generation < u64::MAX
            &&& archetypes_wf(layout2)
            &&& registry_wf(layout2, entities2, free.push(x.index))
            &&& world_view(layout2, entities2) == world_view(layout, entities).remove(x)
        }),
{
    let xi = x.index as int;
    let a = entities[xi].location.archetype_index as int;
    let r = entities[xi].location.index_in_archetype as int;
    assert(placed(layout, entities[xi], xi));
    let rows_a = layout[a].rows() as int;
    let moved = layout[a].entities.last() as int;
    assert(owns(entities, layout[a].entities[rows_a - 1], a, rows_a - 1));
    assert(layout[a].wf());
    lemma_without_row(layout[a], r);
    let arch_a = layout[a].without_row(r);
    let layout2 = layout.update(a, arch_a);
    let entities1 = entities.update(
        xi,
        EntityInfo { generation: (x.generation + 1) as u64, location: entities[xi].location },
    );
    let entities2 = set_location(entities1, moved, a, r);
    let free2 = free.push(x.index);
    assert(layout[a].entities.len() <= usize::MAX);
    assert(location_at(a, r).archetype_index == a && location_at(a, r).index_in_archetype == r);
    assert(x.generation % 2 == 0);
    assert(!entities2[xi].occupied());
    assert(moved != xi ==> entities2[moved].location == location_at(a, r)
        && entities2[moved].generation == entities[moved].generation);
    assert forall|e: int| 0 <= e < entities.len() && e != xi && e != moved implies #[trigger] entities2[e]
        == entities[e] by {}
    assert forall|e: int| 0 <= e < entities.len() && e != xi implies ((
    #[trigger] entities2[e]).occupied() <==> entities[e].occupied()) by {}
    assert(moved != xi ==> r < rows_a - 1);

    assert forall|i: int| 0 <= i < layout2.len() implies (#[trigger] layout2[i]).wf() by {
        if i != a {
            assert(layout[i].wf());
        }
    }
    assert forall|i: int| 0 <= i < layout2.len() implies (#[trigger] layout2[i]).entities.len()
        <= usize::MAX by {
        assert(layout[i].entities.len() <= usize::MAX);
    }
    assert forall|a2: int, r2: int|
        0 <= a2 < layout2.len() && 0 <= r2 < layout2[a2].entities.len() implies owns(
        entities2,
        #[trigger] layout2[a2].entities[r2],
        a2,
        r2,
    ) by {
        if a2 == a {
            let r0 = if r2 == r {
                rows_a - 1
            } else {
                r2
            };
            assert(arch_a.entities[r2] == layout[a].entities[r0]);
            assert(owns(entities, layout[a].entities[r0], a, r0));
            assert(owns(entities, layout[a].entities[r], a, r));
        } else {
            assert(owns(entities, layout[a2].entities[r2], a2, r2));
        }
    }
    assert forall|e: int| 0 <= e < entities2.len() && (#[trigger] entities2[e]).occupied() implies placed(
        layout2,
        entities2[e],
        e,
    ) by {
        assert(e != xi);
        assert(entities[e].occupied());
        assert(placed(layout, entities[e], e));
        if e == moved {
            assert(arch_a.entities[r] == layout[a].entities[rows_a - 1]);
        } else {
            let a2 = entities[e].location.archetype_index as int;
            let r2 = entities[e].location.index_in_archetype as int;
            if a2 == a {
                assert(r2 != r);
                assert(r2 != rows_a - 1);
                assert(arch_a.entities[r2] == layout[a].entities[r2]);
            }
        }
    }
    assert(free2.no_duplicates()) by {
        assert forall|i: int, j: int| 0 <= i < free2.len() && 0 <= j < free2.len() && i != j implies free2[i]
            != free2[j] by {
            if i < free.len() {
                assert(!entities[free[i] as int].occupied());
            }
            if j < free.len() {
                assert(!entities[free[j] as int].occupied());
            }
        }
    }
    assert forall|k: int| 0 <= k < free2.len() implies (#[trigger] free2[k]) < entities2.len()
        && !entities2[free2[k] as int].occupied() by {
        if k < free.len() {
            assert(!entities[free[k] as int].occupied());
        }
    }
    assert forall|e: int| 0 <= e < entities2.len() && !(#[trigger] entities2[e]).occupied() implies free2.contains(
        e as u64,
    ) by {
        if e == xi {
            assert(free2[free.len() as int] == x.index);
        } else {
            assert(!entities[e].occupied());
            let k = free.index_of(e as u64);
            assert(free2[k] == e as u64);
        }
    }

    let before_view = world_view(layout, entities);
    let after_view = world_view(layout2, entities2);
    let expected = before_view.remove(x);
    assert forall|h: Entity| after_view.contains_key(h) <==> expected.contains_key(h) by {
        if live(entities, h) && h.index == x.index {
            lemma_live_unique(entities, x, h);
        }
    }
    assert forall|h: Entity| after_view.contains_key(h) implies after_view[h] == expected[h] by {
        let e = h.index as int;
        assert(placed(layout, entities[e], e));
        if e == moved {
            assert(arch_a.row(r) == layout[a].row(rows_a - 1));
        } else {
            let a2 = entities[e].location.archetype_index as int;
            let r2 = entities[e].location.index_in_archetype as int;
            if a2 == a {
                assert(r2 != r);
                assert(r2 != rows_a - 1);
                assert(arch_a.row(r2) == layout[a].row(r2));
            }
        }
    }
    assert(after_view =~= expected);
}

/// Appending a row for slot `index` to archetype `a` and letting the slot,
/// with an even generation, point at that row keeps registry and archetypes
/// in agreement, provided the slot was unoccupied: either the last one of
/// the free list (`reused`), or one that did not exist yet. The world gains
/// exactly the new handle, which it did not contain before.
pub proof fn lemma_spawn<V>(
    layout: Seq<ArchetypeView<V>>,
    entities: Seq<EntityInfo>,
    free: Seq<EntityId>,
    reused: bool,
    generation: EntityId,
    a: int,
    values: Seq<V>,
)
    requires
        archetypes_wf(layout),
        registry_wf(layout, entities, free),
        reused ==> free.len() > 0,
        !reused ==> entities.len() < usize::MAX,
        generation % 2 == 0,
        0 <= a < layout.len(),
        values.len() == layout[a].types.len(),
        layout[a].rows() < usize::MAX,
    ensures
        ({
            let index = if reused {
                free.last()
            } else {
                entities.len() as u64
            };
            let info = EntityInfo { generation, location: location_at(a, layout[a].rows() as int) };
            let entities2 = if reused {
                entities.update(index as int, info)
            } else {
                entities.push(info)
            };
            let free2 = if reused {
                free.drop_last()
            } else {
                free
            };
            let layout2 = layout.update(a, layout[a].with_row(index, values));
            let handle = Entity { index, generation };
            &&& archetypes_wf(layout2)
            &&& registry_wf(layout2, entities2, free2)
            &&& !world_view(layout, entities).contains_key(handle)
            &&& world_view(layout2, entities2) == world_view(layout, entities).insert(
                handle,
                record(layout[a].types, values),
            )
        }),
{
    let index = if reused {
        free.last()
    } else {
        entities.len() as u64
    };
    let xi = index as int;
    let rows_a = layout[a].rows() as int;
    let info = EntityInfo { generation, location: location_at(a, rows_a) };
    let entities2 = if reused {
        entities.update(xi, info)
    } else {
        entities.push(info)
    };
    let free2 = if reused {
        free.drop_last()
    } else {
        free
    };
    assert(layout[a].wf());
    lemma_with_row(layout[a], index, values);
    let arch_a = layout[a].with_row(index, values);
    let layout2 = layout.update(a, arch_a);
    let handle = Entity { index, generation };
    assert(layout[a].entities.len() <= usize::MAX);
    assert(location_at(a, rows_a).archetype_index == a && location_at(a, rows_a).index_in_archetype
        == rows_a);
    if reused {
        assert(free[free.len() - 1] < entities.len() && !entities[free[free.len() - 1] as int].occupied());
    }
    assert(xi < entities.len() ==> !entities[xi].occupied());
    assert(entities2[xi] == info);
    assert forall|e: int| 0 <= e < entities.len() && e != xi implies #[trigger] entities2[e]
        == entities[e] by {}

    assert forall|i: int| 0 <= i < layout2.len() implies (#[trigger] layout2[i]).wf() by {
        if i != a {
            assert(layout[i].wf());
        }
    }
    assert forall|i: int| 0 <= i < layout2.len() implies (#[trigger] layout2[i]).entities.len()
        <= usize::MAX by {
        assert(layout[i].entities.len() <= usize::MAX);
    }
    assert forall|a2: int, r2: int|
        0 <= a2 < layout2.len() && 0 <= r2 < layout2[a2].entities.len() implies owns(
        entities2,
        #[trigger] layout2[a2].entities[r2],
        a2,
        r2,
    ) by {
        if a2 == a && r2 == rows_a {
        } else {
            assert(owns(entities, layout[a2].entities[r2], a2, r2));
        }
    }
    assert forall|e: int| 0 <= e < entities2.len() && (#[trigger] entities2[e]).occupied() implies placed(
        layout2,
        entities2[e],
        e,
    ) by {
        if e != xi {
            assert(entities[e].occupied());
            assert(placed(layout, entities[e], e));
        }
    }
    assert(free2.no_duplicates());
    assert forall|k: int| 0 <= k < free2.len() implies (#[trigger] free2[k]) < entities2.len()
        && !entities2[free2[k] as int].occupied() by {
        assert(free[k] < entities.len() && !entities[free[k] as int].occupied());
        if reused {
            assert(free[k] != free[free.len() - 1]);
        }
    }
    assert forall|e: int| 0 <= e < entities2.len() && !(#[trigger] entities2[e]).occupied() implies free2.contains(
        e as u64,
    ) by {
        assert(e != xi);
        assert(!entities[e].occupied());
        let k = free.index_of(e as u64);
        assert(free[k] == e as u64);
        if reused {
            assert(k != free.len() - 1);
        }
        assert(free2[k] == e as u64);
    }

    let before_view = world_view(layout, entities);
    let after_view = world_view(layout2, entities2);
    let expected = before_view.insert(handle, record(layout[a].types, values));
    assert forall|h: Entity| after_view.contains_key(h) <==> expected.contains_key(h) by {}
    assert forall|h: Entity| after_view.contains_key(h) implies after_view[h] == expected[h] by {
        let e = h.index as int;
        if e != xi {
            assert(placed(layout, entities[e], e));
            let a2 = entities[e].location.archetype_index as int;
            let r2 = entities[e].location.index_in_archetype as int;
            if a2 == a {
                assert(arch_a.row(r2) == layout[a].row(r2));
            }
        }
    }
    assert(after_view =~= expected);
}

} // verus!
