use archetype_ecs::bundle::{
    calculate_bundle_id, has_distinct_types, sorted_type_ids, ComponentBundle,
};
use archetype_ecs::entity::EntityLocation;
use archetype_ecs::world::{index_twice, World};
use std::collections::hash_map::DefaultHasher;
use std::hash::Hasher;

#[test]
fn bundle_id_is_the_digest_of_the_identifiers_in_order() {
    let mut hasher = DefaultHasher::new();
    hasher.write(&7u64.to_le_bytes());
    hasher.write(&9u64.to_le_bytes());
    assert_eq!(calculate_bundle_id(&[7, 9]), hasher.finish());
    assert_eq!(calculate_bundle_id(&[]), DefaultHasher::new().finish());
}

#[test]
fn bundle_id_depends_on_the_sequence() {
    assert_eq!(calculate_bundle_id(&[1, 2, 3]), calculate_bundle_id(&[1, 2, 3]));
    assert_ne!(calculate_bundle_id(&[1, 2, 3]), calculate_bundle_id(&[3, 2, 1]));
    assert_ne!(calculate_bundle_id(&[1, 2]), calculate_bundle_id(&[1, 2, 3]));
    assert_ne!(calculate_bundle_id(&[]), calculate_bundle_id(&[0]));
}

#[test]
fn sorted_type_ids_are_ascending() {
    let bundle: Vec<(u64, char)> = vec![(5, 'e'), (1, 'a'), (9, 'i'), (3, 'c')];
    assert_eq!(sorted_type_ids(&bundle), vec![1, 3, 5, 9]);
    let single: Vec<(u64, char)> = vec![(4, 'd')];
    assert_eq!(sorted_type_ids(&single), vec![4]);
    let empty: Vec<(u64, char)> = Vec::new();
    assert_eq!(sorted_type_ids(&empty), Vec::<u64>::new());
    let extremes: Vec<(u64, char)> = vec![(u64::MAX, 'z'), (0, 'a')];
    assert_eq!(sorted_type_ids(&extremes), vec![0, u64::MAX]);
}

#[test]
fn spawn_in_world_appends_a_row_and_leaves_the_registry() {
    let mut world: World<char> = World::new();
    let bundle: Vec<(u64, char)> = vec![(2, 'b'), (1, 'a')];
    let location = bundle.spawn_in_world(&mut world, 42);
    assert_eq!(location, EntityLocation { archetype_index: 0, index_in_archetype: 0 });
    assert_eq!(world.archetypes[0].entities, vec![42]);
    assert_eq!(world.archetypes[0].get(0), &vec!['a']);
    assert_eq!(world.archetypes[0].get(1), &vec!['b']);
    assert!(world.entities.is_empty());
    assert!(world.free_entities.is_empty());
    assert_eq!(world.bundle_id_to_archetype.get(&calculate_bundle_id(&[1, 2])), Some(&0));
    let again: Vec<(u64, char)> = vec![(1, 'c'), (2, 'd')];
    let location = again.spawn_in_world(&mut world, 43);
    assert_eq!(location, EntityLocation { archetype_index: 0, index_in_archetype: 1 });
    assert_eq!(world.archetypes.len(), 1);
    assert_eq!(world.archetypes[0].get(0), &vec!['a', 'c']);
    assert_eq!(world.archetypes[0].get(1), &vec!['b', 'd']);
}

#[test]
fn insert_archetype_registers_under_the_identifier() {
    let mut world: World<char> = World::new();
    let bundle: Vec<(u64, char)> = vec![(2, 'b'), (1, 'a')];
    let id = calculate_bundle_id(&[1, 2]);
    assert_eq!(world.find_archetype(&vec![1, 2], id), None);
    let index = world.insert_archetype(id, bundle.new_archetype());
    assert_eq!(index, 0);
    assert_eq!(world.find_archetype(&vec![1, 2], id), Some(0));
    assert_eq!(world.bundle_id_to_archetype.get(&id), Some(&0));
    assert_eq!(world.find_archetype(&vec![1], calculate_bundle_id(&[1])), None);
}

#[test]
fn index_twice_borrows_both_elements() {
    let mut values = vec![10, 20, 30, 40];
    {
        let (first, second) = index_twice(&mut values, 1, 3);
        assert_eq!((*first, *second), (20, 40));
        *first += 1;
        *second += 2;
    }
    assert_eq!(values, vec![10, 21, 30, 42]);
    {
        let (first, second) = index_twice(&mut values, 2, 0);
        assert_eq!((*first, *second), (30, 10));
        std::mem::swap(first, second);
    }
    assert_eq!(values, vec![30, 21, 10, 42]);
}

#[test]
fn distinct_types_are_told_from_repeated_ones() {
    let empty: Vec<(u64, char)> = Vec::new();
    assert!(has_distinct_types(&empty));
    assert!(has_distinct_types(&vec![(1, 'a')]));
    assert!(has_distinct_types(&vec![(3, 'a'), (1, 'a'), (2, 'a')]));
    assert!(!has_distinct_types(&vec![(1, 'a'), (1, 'b')]));
    assert!(!has_distinct_types(&vec![(1, 'a'), (2, 'b'), (1, 'c')]));
    assert!(!has_distinct_types(&vec![(0, 'a'), (2, 'b'), (3, 'c'), (2, 'd')]));
}
