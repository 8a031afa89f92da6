use archetype_ecs::archetype::Archetype;
use archetype_ecs::bundle::ComponentBundle;
use archetype_ecs::error::EntityMissingComponent;
use archetype_ecs::store::ComponentStore;

fn archetype_with(types: &[u64], rows: &[(u64, Vec<i32>)]) -> Archetype<i32> {
    let mut archetype: Archetype<i32> = Archetype::new();
    for type_id in types {
        archetype.components.push(ComponentStore::new(*type_id));
    }
    for (entity, values) in rows {
        archetype.entities.push(*entity);
        for (column, value) in values.iter().enumerate() {
            archetype.push(column, *value);
        }
    }
    archetype
}

fn type_ids(archetype: &Archetype<i32>) -> Vec<u64> {
    archetype.components.iter().map(|c| c.type_id).collect()
}

#[test]
fn store_starts_empty_and_keeps_its_type() {
    let store: ComponentStore<i32> = ComponentStore::new(7);
    assert_eq!(store.type_id, 7);
    assert_eq!(store.len(), 0);
    let mut filled: ComponentStore<i32> = ComponentStore::new(9);
    filled.data.push(1);
    let fresh = filled.new_same_type();
    assert_eq!(fresh.type_id, 9);
    assert_eq!(fresh.len(), 0);
    assert_eq!(filled.len(), 1);
}

#[test]
fn store_swap_remove_moves_the_last_value_in() {
    let mut store: ComponentStore<i32> = ComponentStore::new(1);
    store.data.extend([10, 20, 30, 40]);
    assert_eq!(store.swap_remove(1), 20);
    assert_eq!(store.data, vec![10, 40, 30]);
    assert_eq!(store.swap_remove(2), 30);
    assert_eq!(store.data, vec![10, 40]);
    assert_eq!(store.type_id, 1);
}

#[test]
fn store_migrate_appends_to_the_other_column() {
    let mut from: ComponentStore<i32> = ComponentStore::new(1);
    from.data.extend([10, 20, 30]);
    let mut to: ComponentStore<i32> = ComponentStore::new(1);
    to.data.push(5);
    from.migrate(0, &mut to);
    assert_eq!(from.data, vec![30, 20]);
    assert_eq!(to.data, vec![5, 10]);
}

#[test]
fn new_archetype_has_nothing() {
    let archetype: Archetype<i32> = Archetype::new();
    assert!(archetype.entities.is_empty());
    assert!(archetype.components.is_empty());
    assert_eq!(archetype.len(), 0);
}

#[test]
fn push_and_get_address_one_column() {
    let archetype = archetype_with(&[1, 2], &[(7, vec![10, 20]), (8, vec![11, 21])]);
    assert_eq!(archetype.len(), 2);
    assert_eq!(archetype.get(0), &vec![10, 11]);
    assert_eq!(archetype.get(1), &vec![20, 21]);
}

#[test]
fn replace_component_overwrites_one_value() {
    let mut archetype = archetype_with(&[1, 2], &[(7, vec![10, 20]), (8, vec![11, 21])]);
    archetype.replace_component(1, 0, 99);
    assert_eq!(archetype.get(0), &vec![10, 11]);
    assert_eq!(archetype.get(1), &vec![99, 21]);
    assert_eq!(archetype.entities, vec![7, 8]);
}

#[test]
fn mutable_component_store_hands_out_the_column() {
    let mut archetype = archetype_with(&[1, 2], &[(7, vec![10, 20])]);
    archetype.mutable_component_store(0)[0] = 5;
    assert_eq!(archetype.get(0), &vec![5]);
    assert_eq!(archetype.get(1), &vec![20]);
}

#[test]
fn remove_entity_returns_the_entity_that_moved() {
    let mut archetype =
        archetype_with(&[1, 2], &[(7, vec![10, 20]), (8, vec![11, 21]), (9, vec![12, 22])]);
    assert_eq!(archetype.remove_entity(0), 9);
    assert_eq!(archetype.entities, vec![9, 8]);
    assert_eq!(archetype.get(0), &vec![12, 11]);
    assert_eq!(archetype.get(1), &vec![22, 21]);
    // removing the last row returns the removed entity itself
    assert_eq!(archetype.remove_entity(1), 8);
    assert_eq!(archetype.entities, vec![9]);
    assert_eq!(archetype.remove_entity(0), 9);
    assert_eq!(archetype.len(), 0);
    assert_eq!(type_ids(&archetype), vec![1, 2]);
}

#[test]
fn get_component_mut_finds_the_column_by_type() {
    let mut archetype = archetype_with(&[1, 2], &[(7, vec![10, 20]), (8, vec![11, 21])]);
    *archetype.get_component_mut(1, 2).unwrap() = 0;
    assert_eq!(archetype.get(1), &vec![20, 0]);
    assert_eq!(
        archetype.get_component_mut(1, 3),
        Err(EntityMissingComponent { entity: 8, type_id: 3 })
    );
}

#[test]
fn search_type_gives_position_or_insertion_point() {
    let archetype = archetype_with(&[10, 20, 30], &[]);
    assert_eq!(archetype.search_type(10), Ok(0));
    assert_eq!(archetype.search_type(20), Ok(1));
    assert_eq!(archetype.search_type(30), Ok(2));
    assert_eq!(archetype.search_type(5), Err(0));
    assert_eq!(archetype.search_type(15), Err(1));
    assert_eq!(archetype.search_type(25), Err(2));
    assert_eq!(archetype.search_type(35), Err(3));
    let empty: Archetype<i32> = Archetype::new();
    assert_eq!(empty.search_type(1), Err(0));
}

#[test]
fn type_ids_and_has_types_compare_in_order() {
    let archetype = archetype_with(&[10, 20, 30], &[]);
    assert_eq!(archetype.type_ids(), vec![10, 20, 30]);
    assert!(archetype.has_types(&vec![10, 20, 30]));
    assert!(!archetype.has_types(&vec![10, 20]));
    assert!(!archetype.has_types(&vec![10, 30, 20]));
    assert!(!archetype.has_types(&vec![10, 20, 30, 40]));
}

#[test]
fn layout_copies_are_empty_and_differ_in_one_column() {
    let archetype = archetype_with(&[10, 30], &[(1, vec![5, 6])]);
    let wider = archetype.new_with_component(1, 20);
    assert_eq!(type_ids(&wider), vec![10, 20, 30]);
    assert_eq!(wider.len(), 0);
    assert!(wider.components.iter().all(|c| c.len() == 0));
    assert_eq!(type_ids(&archetype.new_with_component(0, 5)), vec![5, 10, 30]);
    assert_eq!(type_ids(&archetype.new_with_component(2, 40)), vec![10, 30, 40]);
    let narrower = archetype.new_without_component(0);
    assert_eq!(type_ids(&narrower), vec![30]);
    assert_eq!(narrower.len(), 0);
    assert_eq!(type_ids(&archetype.new_without_component(1)), vec![10]);
}

#[test]
fn migrate_component_moves_one_value() {
    let mut from = archetype_with(&[1, 2], &[(7, vec![10, 20]), (8, vec![11, 21])]);
    let mut to = archetype_with(&[0, 2], &[]);
    from.migrate_component(1, 0, &mut to, 1);
    assert_eq!(from.get(0), &vec![10, 11]);
    assert_eq!(from.get(1), &vec![21]);
    assert_eq!(to.get(0), &Vec::<i32>::new());
    assert_eq!(to.get(1), &vec![20]);
}

#[test]
fn migrate_components_moves_a_range_of_columns() {
    let mut from =
        archetype_with(&[1, 2, 3], &[(7, vec![10, 20, 30]), (8, vec![11, 21, 31])]);
    let mut to = archetype_with(&[0, 2, 3], &[(5, vec![1, 2, 3])]);
    from.migrate_components(1, 3, 0, &mut to, 1);
    assert_eq!(from.get(0), &vec![10, 11]);
    assert_eq!(from.get(1), &vec![21]);
    assert_eq!(from.get(2), &vec![31]);
    assert_eq!(to.get(0), &vec![1]);
    assert_eq!(to.get(1), &vec![2, 20]);
    assert_eq!(to.get(2), &vec![3, 30]);
    // an empty range moves nothing
    from.migrate_components(1, 1, 0, &mut to, 0);
    assert_eq!(from.get(1), &vec![21]);
    assert_eq!(to.get(0), &vec![1]);
}

#[test]
fn bundle_archetype_has_the_types_in_canonical_order() {
    let bundle: Vec<(u64, i32)> = vec![(30, 3), (10, 1), (20, 2)];
    let archetype = bundle.new_archetype();
    assert_eq!(type_ids(&archetype), vec![10, 20, 30]);
    assert_eq!(archetype.len(), 0);
    assert!(archetype.components.iter().all(|c| c.len() == 0));
}
