use archetype_ecs::ecs::{Health, Name, World};

const HEALTH: u64 = 1;
const NAME: u64 = 2;

#[test]
fn plain_world_starts_empty() {
    let world: World<i32> = World::new();
    assert_eq!(world.ent_count, 0);
    assert!(world.component_vecs.is_empty());
}

#[test]
fn new_entities_are_numbered_in_order() {
    let mut world: World<i32> = World::new();
    assert_eq!(world.new_entity(), 0);
    assert_eq!(world.new_entity(), 1);
    assert_eq!(world.new_entity(), 2);
    assert_eq!(world.ent_count, 3);
    assert!(world.component_vecs.is_empty());
}

#[test]
fn first_component_of_a_type_makes_its_column() {
    let mut world: World<i32> = World::new();
    let a = world.new_entity();
    let b = world.new_entity();
    let c = world.new_entity();
    world.add_component_to_entity(b, HEALTH, 50);
    assert_eq!(world.component_vecs.len(), 1);
    assert_eq!(world.component_vecs[0].type_id, HEALTH);
    assert_eq!(world.component_vecs[0].components, vec![None, Some(50), None]);
    world.add_component_to_entity(c, NAME, 7);
    world.add_component_to_entity(a, HEALTH, 10);
    assert_eq!(world.component_vecs.len(), 2);
    assert_eq!(world.component_vecs[0].components, vec![Some(10), Some(50), None]);
    assert_eq!(world.component_vecs[1].type_id, NAME);
    assert_eq!(world.component_vecs[1].components, vec![None, None, Some(7)]);
}

#[test]
fn adding_again_replaces_the_component() {
    let mut world: World<i32> = World::new();
    let a = world.new_entity();
    world.add_component_to_entity(a, HEALTH, 1);
    world.add_component_to_entity(a, HEALTH, 2);
    assert_eq!(world.component_vecs.len(), 1);
    assert_eq!(world.component_vecs[0].components, vec![Some(2)]);
}

#[test]
fn later_entities_start_without_components() {
    let mut world: World<i32> = World::new();
    let a = world.new_entity();
    world.add_component_to_entity(a, HEALTH, 1);
    world.add_component_to_entity(a, NAME, 2);
    let b = world.new_entity();
    assert_eq!(b, 1);
    assert_eq!(world.component_vecs[0].components, vec![Some(1), None]);
    assert_eq!(world.component_vecs[1].components, vec![Some(2), None]);
}

#[test]
fn borrowed_column_is_the_world_s_own() {
    let mut world: World<i32> = World::new();
    let a = world.new_entity();
    let b = world.new_entity();
    world.add_component_to_entity(a, HEALTH, 100);
    world.add_component_to_entity(b, HEALTH, 0);
    world.add_component_to_entity(b, NAME, 9);
    {
        let healths = world.borrow_component_vec_mut(HEALTH).unwrap();
        assert_eq!(*healths, vec![Some(100), Some(0)]);
        for health in healths.iter_mut().flatten() {
            if *health <= 0 {
                *health = 100;
            }
        }
    }
    assert_eq!(world.component_vecs[0].components, vec![Some(100), Some(100)]);
    assert_eq!(world.component_vecs[1].components, vec![None, Some(9)]);
    assert!(world.borrow_component_vec_mut(3).is_none());
    let mut empty: World<i32> = World::new();
    assert!(empty.borrow_component_vec_mut(HEALTH).is_none());
}

#[test]
fn sample_components_hold_their_values() {
    let mut world: World<Health> = World::new();
    let a = world.new_entity();
    world.add_component_to_entity(a, HEALTH, Health(100));
    assert_eq!(world.component_vecs[0].components[0].as_ref().unwrap().0, 100);
    let mut names: World<Name> = World::new();
    let b = names.new_entity();
    names.add_component_to_entity(b, NAME, Name("Perseus"));
    assert_eq!(names.component_vecs[0].components[0].as_ref().unwrap().0, "Perseus");
}
