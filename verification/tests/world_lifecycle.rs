use archetype_ecs::bundle::calculate_bundle_id;
use archetype_ecs::entity::{Entity, EntityInfo, EntityLocation};
use archetype_ecs::error::{ComponentError, EntityMissingComponent, NoSuchEntity};
use archetype_ecs::world::World;

const A: u64 = 10;
const B: u64 = 20;
const C: u64 = 30;

fn location(archetype_index: u64, index_in_archetype: u64) -> EntityLocation {
    EntityLocation { archetype_index, index_in_archetype }
}

#[test]
fn new_world_is_empty() {
    let world: World<i64> = World::new();
    assert!(world.archetypes.is_empty());
    assert!(world.entities.is_empty());
    assert!(world.free_entities.is_empty());
    assert!(world.bundle_id_to_archetype.is_empty());
}

#[test]
fn spawn_allocates_fresh_slots_in_order() {
    let mut world: World<i64> = World::new();
    let e0 = world.spawn_single(A, 1);
    let e1 = world.spawn_single(A, 2);
    let e2 = world.spawn(vec![(A, 3), (B, 4)]);
    assert_eq!(e0, Entity { index: 0, generation: 0 });
    assert_eq!(e1, Entity { index: 1, generation: 0 });
    assert_eq!(e2, Entity { index: 2, generation: 0 });
    assert_eq!(world.entities[0], EntityInfo { generation: 0, location: location(0, 0) });
    assert_eq!(world.entities[1], EntityInfo { generation: 0, location: location(0, 1) });
    assert_eq!(world.entities[2], EntityInfo { generation: 0, location: location(1, 0) });
    assert_eq!(world.archetypes[0].entities, vec![0, 1]);
    assert_eq!(world.archetypes[1].entities, vec![2]);
}

#[test]
fn spawn_stores_components_in_type_order() {
    let mut world: World<i64> = World::new();
    world.spawn(vec![(C, 3), (A, 1), (B, 2)]);
    let archetype = &world.archetypes[0];
    let types: Vec<u64> = archetype.components.iter().map(|c| c.type_id).collect();
    assert_eq!(types, vec![A, B, C]);
    assert_eq!(archetype.get(0), &vec![1]);
    assert_eq!(archetype.get(1), &vec![2]);
    assert_eq!(archetype.get(2), &vec![3]);
}

#[test]
fn spawn_with_empty_bundle_uses_the_archetype_without_columns() {
    let mut world: World<i64> = World::new();
    let e = world.spawn(Vec::new());
    assert_eq!(world.archetypes.len(), 1);
    assert!(world.archetypes[0].components.is_empty());
    assert_eq!(world.archetypes[0].entities, vec![e.index]);
    assert_eq!(
        world.get_component_mut(e, A),
        Err(ComponentError::EntityMissingComponent(EntityMissingComponent {
            entity: e.index,
            type_id: A
        }))
    );
}

#[test]
fn despawn_bumps_generation_and_frees_the_slot() {
    let mut world: World<i64> = World::new();
    let e = world.spawn_single(A, 1);
    assert_eq!(world.despawn(e), Ok(()));
    assert_eq!(world.entities[0].generation, 1);
    assert_eq!(world.free_entities, vec![0]);
    assert!(world.archetypes[0].entities.is_empty());
    assert!(world.archetypes[0].get(0).is_empty());
}

#[test]
fn despawn_of_last_row_moves_nobody() {
    let mut world: World<i64> = World::new();
    let e0 = world.spawn_single(A, 1);
    let e1 = world.spawn_single(A, 2);
    assert_eq!(world.despawn(e1), Ok(()));
    assert_eq!(world.entities[e0.index as usize].location, location(0, 0));
    assert_eq!(world.archetypes[0].entities, vec![0]);
    assert_eq!(*world.get_component_mut(e0, A).unwrap(), 1);
}

#[test]
fn despawn_of_inner_row_moves_the_last_entity_in() {
    let mut world: World<i64> = World::new();
    let e0 = world.spawn_single(A, 1);
    let e1 = world.spawn_single(A, 2);
    let e2 = world.spawn_single(A, 3);
    assert_eq!(world.despawn(e0), Ok(()));
    assert_eq!(world.archetypes[0].entities, vec![2, 1]);
    assert_eq!(world.archetypes[0].get(0), &vec![3, 2]);
    assert_eq!(world.entities[e2.index as usize].location, location(0, 0));
    assert_eq!(world.entities[e1.index as usize].location, location(0, 1));
    assert_eq!(*world.get_component_mut(e2, A).unwrap(), 3);
    assert_eq!(*world.get_component_mut(e1, A).unwrap(), 2);
}

#[test]
fn stale_handle_fails_every_operation() {
    let mut world: World<i64> = World::new();
    let e = world.spawn_single(A, 1);
    assert_eq!(world.despawn(e), Ok(()));
    assert_eq!(world.despawn(e), Err(NoSuchEntity));
    assert_eq!(world.add_component(e, B, 5), Err(NoSuchEntity));
    assert_eq!(world.remove_component(e, A), Err(ComponentError::NoSuchEntity(NoSuchEntity)));
    assert_eq!(world.get_component_mut(e, A), Err(ComponentError::NoSuchEntity(NoSuchEntity)));
    // the failed calls changed nothing
    assert_eq!(world.entities[0].generation, 1);
    assert_eq!(world.free_entities, vec![0]);
    assert_eq!(world.archetypes.len(), 1);
}

#[test]
fn stale_handle_fails_after_its_slot_is_reused() {
    let mut world: World<i64> = World::new();
    let old = world.spawn_single(A, 1);
    assert_eq!(world.despawn(old), Ok(()));
    let new = world.spawn_single(A, 2);
    assert_eq!(new, Entity { index: 0, generation: 2 });
    assert_eq!(world.despawn(old), Err(NoSuchEntity));
    assert_eq!(world.add_component(old, B, 5), Err(NoSuchEntity));
    assert_eq!(world.remove_component(old, A), Err(ComponentError::NoSuchEntity(NoSuchEntity)));
    assert_eq!(world.get_component_mut(old, A), Err(ComponentError::NoSuchEntity(NoSuchEntity)));
    assert_eq!(*world.get_component_mut(new, A).unwrap(), 2);
}

#[test]
fn handle_that_was_never_issued_is_rejected() {
    let mut world: World<i64> = World::new();
    let e = world.spawn_single(A, 1);
    // index beyond the registry
    let beyond = Entity { index: 7, generation: 0 };
    assert_eq!(world.despawn(beyond), Err(NoSuchEntity));
    assert_eq!(world.get_component_mut(beyond, A), Err(ComponentError::NoSuchEntity(NoSuchEntity)));
    // generation that the slot does not have yet
    let future = Entity { index: 0, generation: 2 };
    assert_eq!(world.add_component(future, A, 9), Err(NoSuchEntity));
    // generation of the free slot itself
    assert_eq!(world.despawn(e), Ok(()));
    let free = Entity { index: 0, generation: 1 };
    assert_eq!(world.despawn(free), Err(NoSuchEntity));
    assert_eq!(world.remove_component(free, A), Err(ComponentError::NoSuchEntity(NoSuchEntity)));
    assert_eq!(world.free_entities, vec![0]);
}

#[test]
fn free_slots_are_reused_last_in_first_out() {
    let mut world: World<i64> = World::new();
    let e0 = world.spawn_single(A, 0);
    let e1 = world.spawn_single(A, 1);
    let e2 = world.spawn_single(A, 2);
    assert_eq!(world.despawn(e1), Ok(()));
    assert_eq!(world.despawn(e0), Ok(()));
    assert_eq!(world.free_entities, vec![1, 0]);
    let n0 = world.spawn_single(B, 10);
    let n1 = world.spawn_single(B, 11);
    let n2 = world.spawn_single(B, 12);
    assert_eq!(n0, Entity { index: 0, generation: 2 });
    assert_eq!(n1, Entity { index: 1, generation: 2 });
    assert_eq!(n2, Entity { index: 3, generation: 0 });
    assert_eq!(*world.get_component_mut(e2, A).unwrap(), 2);
}

#[test]
fn generation_wraps_from_the_greatest_value_to_zero() {
    let mut world: World<i64> = World::new();
    let e = world.spawn_single(A, 1);
    assert_eq!(world.despawn(e), Ok(()));
    world.entities[0].generation = u64::MAX;
    let again = world.spawn_single(A, 2);
    assert_eq!(again, Entity { index: 0, generation: 0 });
    assert_eq!(*world.get_component_mut(again, A).unwrap(), 2);
}

#[test]
fn get_component_mut_writes_through() {
    let mut world: World<i64> = World::new();
    let e0 = world.spawn(vec![(A, 1), (B, 2)]);
    let e1 = world.spawn(vec![(A, 3), (B, 4)]);
    *world.get_component_mut(e1, B).unwrap() = 40;
    assert_eq!(*world.get_component_mut(e1, B).unwrap(), 40);
    assert_eq!(*world.get_component_mut(e1, A).unwrap(), 3);
    assert_eq!(*world.get_component_mut(e0, A).unwrap(), 1);
    assert_eq!(*world.get_component_mut(e0, B).unwrap(), 2);
}

#[test]
fn get_component_mut_reports_the_missing_type() {
    let mut world: World<i64> = World::new();
    let _ = world.spawn_single(A, 1);
    let e = world.spawn_single(A, 2);
    assert_eq!(
        world.get_component_mut(e, B),
        Err(ComponentError::EntityMissingComponent(EntityMissingComponent { entity: 1, type_id: B }))
    );
}

#[test]
fn add_component_replaces_in_place() {
    let mut world: World<i64> = World::new();
    let e = world.spawn(vec![(A, 1), (B, 2)]);
    assert_eq!(world.add_component(e, B, 20), Ok(()));
    assert_eq!(world.archetypes.len(), 1);
    assert_eq!(world.entities[0].location, location(0, 0));
    assert_eq!(*world.get_component_mut(e, B).unwrap(), 20);
    assert_eq!(*world.get_component_mut(e, A).unwrap(), 1);
}

#[test]
fn add_component_migrates_to_a_new_archetype() {
    let mut world: World<i64> = World::new();
    let e0 = world.spawn(vec![(A, 1), (C, 3)]);
    let e1 = world.spawn(vec![(A, 10), (C, 30)]);
    assert_eq!(world.add_component(e0, B, 2), Ok(()));
    assert_eq!(world.archetypes.len(), 2);
    // the new archetype has B between A and C
    let types: Vec<u64> = world.archetypes[1].components.iter().map(|c| c.type_id).collect();
    assert_eq!(types, vec![A, B, C]);
    assert_eq!(world.archetypes[1].get(0), &vec![1]);
    assert_eq!(world.archetypes[1].get(1), &vec![2]);
    assert_eq!(world.archetypes[1].get(2), &vec![3]);
    assert_eq!(world.entities[e0.index as usize].location, location(1, 0));
    // e1 took the vacated row
    assert_eq!(world.entities[e1.index as usize].location, location(0, 0));
    assert_eq!(world.archetypes[0].entities, vec![1]);
    assert_eq!(world.archetypes[0].get(0), &vec![10]);
    assert_eq!(world.archetypes[0].get(1), &vec![30]);
    assert_eq!(*world.get_component_mut(e1, C).unwrap(), 30);
}

#[test]
fn add_component_at_either_end_of_the_type_order() {
    let mut world: World<i64> = World::new();
    let e = world.spawn_single(B, 2);
    assert_eq!(world.add_component(e, A, 1), Ok(()));
    assert_eq!(world.add_component(e, C, 3), Ok(()));
    assert_eq!(world.archetypes.len(), 3);
    let types: Vec<u64> = world.archetypes[2].components.iter().map(|c| c.type_id).collect();
    assert_eq!(types, vec![A, B, C]);
    assert_eq!(*world.get_component_mut(e, A).unwrap(), 1);
    assert_eq!(*world.get_component_mut(e, B).unwrap(), 2);
    assert_eq!(*world.get_component_mut(e, C).unwrap(), 3);
    assert!(world.archetypes[0].entities.is_empty());
    assert!(world.archetypes[1].entities.is_empty());
}

#[test]
fn remove_component_returns_the_value_and_migrates() {
    let mut world: World<i64> = World::new();
    let e0 = world.spawn(vec![(A, 1), (B, 2), (C, 3)]);
    let e1 = world.spawn(vec![(A, 10), (B, 20), (C, 30)]);
    assert_eq!(world.remove_component(e0, B), Ok(2));
    assert_eq!(world.archetypes.len(), 2);
    let types: Vec<u64> = world.archetypes[1].components.iter().map(|c| c.type_id).collect();
    assert_eq!(types, vec![A, C]);
    assert_eq!(world.archetypes[1].get(0), &vec![1]);
    assert_eq!(world.archetypes[1].get(1), &vec![3]);
    assert_eq!(world.entities[e0.index as usize].location, location(1, 0));
    assert_eq!(world.entities[e1.index as usize].location, location(0, 0));
    assert_eq!(world.archetypes[0].get(0), &vec![10]);
    assert_eq!(world.archetypes[0].get(1), &vec![20]);
    assert_eq!(world.archetypes[0].get(2), &vec![30]);
    assert_eq!(
        world.get_component_mut(e0, B),
        Err(ComponentError::EntityMissingComponent(EntityMissingComponent { entity: 0, type_id: B }))
    );
}

#[test]
fn remove_component_reports_the_missing_type() {
    let mut world: World<i64> = World::new();
    let e = world.spawn_single(A, 1);
    assert_eq!(
        world.remove_component(e, C),
        Err(ComponentError::EntityMissingComponent(EntityMissingComponent { entity: 0, type_id: C }))
    );
    assert_eq!(world.archetypes.len(), 1);
    assert_eq!(*world.get_component_mut(e, A).unwrap(), 1);
}

#[test]
fn removing_the_only_component_keeps_the_entity() {
    let mut world: World<i64> = World::new();
    let e = world.spawn_single(A, 1);
    assert_eq!(world.remove_component(e, A), Ok(1));
    assert_eq!(world.archetypes.len(), 2);
    assert!(world.archetypes[1].components.is_empty());
    assert_eq!(world.archetypes[1].entities, vec![0]);
    assert_eq!(world.add_component(e, A, 5), Ok(()));
    // back in the first archetype, which was kept while empty
    assert_eq!(world.archetypes.len(), 2);
    assert_eq!(world.entities[0].location, location(0, 0));
    assert_eq!(*world.get_component_mut(e, A).unwrap(), 5);
    assert_eq!(world.despawn(e), Ok(()));
}

#[test]
fn add_then_remove_restores_the_entity() {
    let mut world: World<i64> = World::new();
    let other = world.spawn(vec![(A, 7), (C, 8)]);
    let e = world.spawn(vec![(A, 1), (C, 3)]);
    assert_eq!(world.add_component(e, B, 2), Ok(()));
    assert_eq!(world.remove_component(e, B), Ok(2));
    assert_eq!(*world.get_component_mut(e, A).unwrap(), 1);
    assert_eq!(*world.get_component_mut(e, C).unwrap(), 3);
    assert_eq!(
        world.get_component_mut(e, B),
        Err(ComponentError::EntityMissingComponent(EntityMissingComponent { entity: 1, type_id: B }))
    );
    assert_eq!(*world.get_component_mut(other, A).unwrap(), 7);
    assert_eq!(*world.get_component_mut(other, C).unwrap(), 8);
    assert_eq!(world.entities[e.index as usize].location.archetype_index, 0);
}

#[test]
fn archetypes_are_shared_between_spawn_add_and_remove() {
    let mut world: World<i64> = World::new();
    let e0 = world.spawn(vec![(B, 2), (A, 1)]);
    let e1 = world.spawn_single(A, 10);
    let e2 = world.spawn(vec![(A, 100), (B, 200), (C, 300)]);
    assert_eq!(world.archetypes.len(), 3);
    assert_eq!(world.add_component(e1, B, 20), Ok(()));
    assert_eq!(world.remove_component(e2, C), Ok(300));
    assert_eq!(world.archetypes.len(), 3);
    for e in [e0, e1, e2] {
        assert_eq!(world.entities[e.index as usize].location.archetype_index, 0);
    }
    assert_eq!(world.archetypes[0].entities, vec![0, 1, 2]);
    assert_eq!(world.archetypes[0].get(0), &vec![1, 10, 100]);
    assert_eq!(world.archetypes[0].get(1), &vec![2, 20, 200]);
    assert_eq!(world.bundle_id_to_archetype.len(), 3);
}

#[test]
fn find_archetype_survives_a_wrong_hint() {
    let mut world: World<i64> = World::new();
    world.spawn_single(A, 1);
    world.spawn_single(B, 2);
    // let the table point the identifier of [B] at the archetype of [A],
    // as it would after two type sequences had hashed alike
    let id = calculate_bundle_id(&[B]);
    world.bundle_id_to_archetype.insert(id, 0);
    assert_eq!(world.find_archetype(&vec![B], id), Some(1));
    assert_eq!(world.find_archetype(&vec![A], calculate_bundle_id(&[A])), Some(0));
    // and at an archetype that has the types but not the first place
    world.bundle_id_to_archetype.insert(id, 1);
    assert_eq!(world.find_archetype(&vec![B], id), Some(1));
    assert_eq!(world.find_archetype(&vec![C], calculate_bundle_id(&[C])), None);
}
