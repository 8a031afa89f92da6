use archetype_ecs::entity::Entity;
use archetype_ecs::error::{ComponentError, NoSuchEntity};
use archetype_ecs::world::World;

const POSITION: u64 = 1;
const HEALTH: u64 = 2;

#[derive(Debug, Clone, PartialEq)]
enum Component {
    Position { x: i32, y: i32 },
    Health(i32),
}

#[test]
fn spawn_then_read_back() {
    let mut world: World<Component> = World::new();
    let e = world.spawn(vec![
        (HEALTH, Component::Health(100)),
        (POSITION, Component::Position { x: 0, y: 0 }),
    ]);
    assert_eq!(e, Entity { index: 0, generation: 0 });
    assert_eq!(*world.get_component_mut(e, HEALTH).unwrap(), Component::Health(100));
    assert_eq!(
        *world.get_component_mut(e, POSITION).unwrap(),
        Component::Position { x: 0, y: 0 }
    );
}

#[test]
fn despawned_handle_is_rejected() {
    let mut world: World<Component> = World::new();
    let e = world.spawn_single(HEALTH, Component::Health(1));
    assert_eq!(world.despawn(e), Ok(()));
    assert_eq!(world.despawn(e), Err(NoSuchEntity));
    let e2 = world.spawn_single(HEALTH, Component::Health(2));
    assert_eq!(e2.index, e.index);
    assert_eq!(e2.generation, 2);
    assert!(matches!(
        world.get_component_mut(e, HEALTH),
        Err(ComponentError::NoSuchEntity(_))
    ));
    assert_eq!(*world.get_component_mut(e2, HEALTH).unwrap(), Component::Health(2));
}

#[test]
fn add_then_remove_round_trip() {
    let mut world: World<Component> = World::new();
    let e = world.spawn_single(POSITION, Component::Position { x: 3, y: 4 });
    assert_eq!(world.add_component(e, HEALTH, Component::Health(50)), Ok(()));
    assert_eq!(world.remove_component(e, HEALTH), Ok(Component::Health(50)));
    assert_eq!(
        *world.get_component_mut(e, POSITION).unwrap(),
        Component::Position { x: 3, y: 4 }
    );
    assert!(matches!(
        world.remove_component(e, HEALTH),
        Err(ComponentError::EntityMissingComponent(_))
    ));
}

fn position(x: i32, y: i32) -> Component {
    Component::Position { x, y }
}

#[test]
fn added_component_joins_existing_archetype() {
    let mut world: World<Component> = World::new();
    let e1 = world.spawn(vec![(POSITION, position(0, 0)), (HEALTH, Component::Health(100))]);
    let e2 = world.spawn(vec![(POSITION, position(1, 1))]);
    assert_eq!(world.archetypes.len(), 2);
    assert_eq!(world.add_component(e2, HEALTH, Component::Health(50)), Ok(()));
    // no third archetype: e2 went where e1 is
    assert_eq!(world.archetypes.len(), 2);
    assert_eq!(
        world.entities[e1.index as usize].location.archetype_index,
        world.entities[e2.index as usize].location.archetype_index
    );
    let rows = world.query(&vec![POSITION, HEALTH]).unwrap();
    assert_eq!(rows.len(), 2);
    assert_eq!(rows[0], vec![&position(0, 0), &Component::Health(100)]);
    assert_eq!(rows[1], vec![&position(1, 1), &Component::Health(50)]);
}

#[test]
fn removed_component_leaves_the_other_entity() {
    let mut world: World<Component> = World::new();
    let e1 = world.spawn(vec![(POSITION, position(0, 0)), (HEALTH, Component::Health(100))]);
    let e2 = world.spawn(vec![(POSITION, position(1, 1))]);
    assert_eq!(world.add_component(e2, HEALTH, Component::Health(50)), Ok(()));
    assert_eq!(world.remove_component(e1, HEALTH), Ok(Component::Health(100)));
    let rows = world.query(&vec![HEALTH]).unwrap();
    assert_eq!(rows.len(), 1);
    assert_eq!(rows[0], vec![&Component::Health(50)]);
    // e2 took the row that e1 left and is still found through its handle
    assert_eq!(*world.get_component_mut(e2, HEALTH).unwrap(), Component::Health(50));
    assert_eq!(*world.get_component_mut(e2, POSITION).unwrap(), position(1, 1));
    assert_eq!(*world.get_component_mut(e1, POSITION).unwrap(), position(0, 0));
}

#[test]
fn declaration_order_does_not_matter() {
    let mut world: World<Component> = World::new();
    let e1 = world.spawn(vec![(POSITION, position(0, 0)), (HEALTH, Component::Health(1))]);
    let e2 = world.spawn(vec![(HEALTH, Component::Health(2)), (POSITION, position(2, 2))]);
    assert_eq!(world.archetypes.len(), 1);
    assert_eq!(world.entities[e1.index as usize].location.archetype_index, 0);
    assert_eq!(world.entities[e2.index as usize].location.archetype_index, 0);
    assert_eq!(world.entities[e2.index as usize].location.index_in_archetype, 1);
    assert_eq!(*world.get_component_mut(e2, POSITION).unwrap(), position(2, 2));
    assert_eq!(*world.get_component_mut(e2, HEALTH).unwrap(), Component::Health(2));
}

#[test]
fn swap_removed_entity_stays_reachable() {
    let mut world: World<Component> = World::new();
    let a = world.spawn_single(HEALTH, Component::Health(1));
    let b = world.spawn_single(HEALTH, Component::Health(2));
    let c = world.spawn_single(HEALTH, Component::Health(3));
    assert_eq!(world.despawn(a), Ok(()));
    assert_eq!(world.entities[c.index as usize].location.index_in_archetype, 0);
    assert_eq!(world.entities[b.index as usize].location.index_in_archetype, 1);
    assert_eq!(*world.get_component_mut(c, HEALTH).unwrap(), Component::Health(3));
    assert_eq!(*world.get_component_mut(b, HEALTH).unwrap(), Component::Health(2));
}
