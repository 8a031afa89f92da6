use archetype_ecs::entity::Entity;
use archetype_ecs::error::FetchError;
use archetype_ecs::world::World;

const A: u64 = 10;
const B: u64 = 20;
const C: u64 = 30;

fn sample() -> (World<i64>, Vec<Entity>) {
    let mut world: World<i64> = World::new();
    let mut handles = Vec::new();
    handles.push(world.spawn(vec![(A, 1), (B, 2)]));
    handles.push(world.spawn(vec![(A, 10)]));
    handles.push(world.spawn(vec![(C, 300), (B, 200), (A, 100)]));
    handles.push(world.spawn(vec![(B, 2000), (A, 1000)]));
    handles.push(world.spawn(vec![(C, 30000)]));
    (world, handles)
}

#[test]
fn query_visits_archetypes_in_storage_order() {
    let (world, _) = sample();
    let rows = world.query(&vec![A]).unwrap();
    assert_eq!(rows, vec![vec![&1], vec![&1000], vec![&10], vec![&100]]);
}

#[test]
fn query_lists_components_in_the_order_requested() {
    let (world, _) = sample();
    let rows = world.query(&vec![B, A]).unwrap();
    assert_eq!(rows, vec![vec![&2, &1], vec![&2000, &1000], vec![&200, &100]]);
    let rows = world.query(&vec![A, B]).unwrap();
    assert_eq!(rows, vec![vec![&1, &2], vec![&1000, &2000], vec![&100, &200]]);
}

#[test]
fn query_needs_every_type() {
    let (world, _) = sample();
    let rows = world.query(&vec![A, B, C]).unwrap();
    assert_eq!(rows, vec![vec![&100, &200, &300]]);
    let rows = world.query(&vec![C]).unwrap();
    assert_eq!(rows, vec![vec![&300], vec![&30000]]);
}

#[test]
fn query_without_matching_archetype_fails() {
    let (world, _) = sample();
    assert_eq!(world.query(&vec![A, 99]), Err(FetchError));
    assert_eq!(world.query(&vec![99]), Err(FetchError));
    let empty: World<i64> = World::new();
    assert_eq!(empty.query(&vec![A]), Err(FetchError));
    assert_eq!(empty.query(&Vec::new()), Err(FetchError));
}

#[test]
fn query_over_emptied_archetype_yields_no_rows() {
    let mut world: World<i64> = World::new();
    let e = world.spawn_single(A, 1);
    assert_eq!(world.despawn(e), Ok(()));
    assert_eq!(world.query(&vec![A]), Ok(Vec::new()));
}

#[test]
fn query_for_no_types_yields_one_empty_row_per_entity() {
    let (world, _) = sample();
    let rows = world.query(&Vec::new()).unwrap();
    assert_eq!(rows.len(), 5);
    assert!(rows.iter().all(|row| row.is_empty()));
}

#[test]
fn query_entities_names_the_owner_of_each_row() {
    let (mut world, handles) = sample();
    let found = world.query_entities(&vec![A, B]).unwrap();
    assert_eq!(found, vec![handles[0], handles[3], handles[2]]);
    for (position, handle) in found.iter().enumerate() {
        *world.get_component_mut(*handle, B).unwrap() = position as i64;
    }
    let rows = world.query(&vec![B]).unwrap();
    assert_eq!(rows, vec![vec![&0], vec![&1], vec![&2]]);
    assert_eq!(world.query_entities(&vec![99]), Err(FetchError));
}

#[test]
fn query_entities_follows_swap_removal() {
    let (mut world, handles) = sample();
    assert_eq!(world.despawn(handles[0]), Ok(()));
    assert_eq!(world.query_entities(&vec![A]).unwrap(), vec![handles[3], handles[1], handles[2]]);
}

#[test]
fn get_single_finds_the_first_instance() {
    let (world, _) = sample();
    assert_eq!(world.get_single(A), Ok(&1));
    assert_eq!(world.get_single(B), Ok(&2));
    assert_eq!(world.get_single(C), Ok(&300));
    assert_eq!(world.get_single(99), Err(FetchError));
}

#[test]
fn get_single_skips_archetypes_without_rows() {
    let (mut world, handles) = sample();
    assert_eq!(world.despawn(handles[0]), Ok(()));
    assert_eq!(world.despawn(handles[3]), Ok(()));
    assert_eq!(world.get_single(A), Ok(&10));
    assert_eq!(world.get_single(B), Ok(&200));
}

#[test]
fn get_single_fails_when_only_empty_archetypes_have_the_type() {
    let mut world: World<i64> = World::new();
    let e = world.spawn_single(A, 1);
    assert_eq!(world.despawn(e), Ok(()));
    assert_eq!(world.get_single(A), Err(FetchError));
    assert_eq!(world.get_single_mut(A), Err(FetchError));
}

#[test]
fn get_single_mut_writes_through() {
    let (mut world, handles) = sample();
    *world.get_single_mut(C).unwrap() = -3;
    assert_eq!(*world.get_component_mut(handles[2], C).unwrap(), -3);
    assert_eq!(*world.get_component_mut(handles[4], C).unwrap(), 30000);
    assert_eq!(world.get_single_mut(99), Err(FetchError));
}

#[test]
fn get_single_agrees_with_the_first_row_of_the_query() {
    let (world, _) = sample();
    for type_id in [A, B, C] {
        let rows = world.query(&vec![type_id]).unwrap();
        assert_eq!(world.get_single(type_id).unwrap(), rows[0][0]);
    }
}
