//! Bundles of components, and the identifier under which the set of their
//! types is looked up.

use std::collections::hash_map::DefaultHasher;
use std::hash::Hasher;
use vstd::bytes::{spec_u64_to_le_bytes, u64_to_le_bytes};
use vstd::prelude::*;
use vstd::std_specs::hash::DefaultHasherAdditionalSpecFns;
use crate::archetype::{lemma_with_row, Archetype, ArchetypeView};
use crate::entity::{EntityId, EntityLocation};
use crate::record::{
    canonical, lemma_canonical_of_ascending, lemma_insert_ascending, lemma_insert_to_set,
    strictly_ascending, values_in_order,
};
use crate::registry::{layout_wf, lemma_layout_update};
use crate::store::ComponentStore;
use crate::world::{
    archetype_position, layout_after_spawn, lemma_layout_of_update, spawn_location,
    with_archetype, with_archetype_id, World,
};

verus! {

/// What is fed to the hasher for a sequence of type identifiers: the eight
/// bytes of each, in order.
pub open spec fn bundle_writes(types: Seq<u64>) -> Seq<Seq<u8>> {
    Seq::new(types.len(), |i: int| spec_u64_to_le_bytes(types[i]))
}

/// The identifier of a sequence of type identifiers: the digest that the
/// default hasher gives for `bundle_writes(types)`.
pub open spec fn bundle_id(types: Seq<u64>) -> u64 {
    DefaultHasher::spec_finish(bundle_writes(types))
}

/// Hashes a sequence of type identifiers. Equal sequences hash alike, so a
/// canonical (sorted) sequence gives one identifier per set of types.
pub fn calculate_bundle_id(types: &[u64]) -> (id: u64)
    ensures
        id == bundle_id(types@),
{
    let mut s = DefaultHasher::new();
    let n: usize = types.len();
    let mut i: usize = 0;
    while i < n
        invariant
            i <= n,
            n == types@.len(),
            s@ == bundle_writes(types@.take(i as int)),
        decreases n - i,
    {
        let bytes = u64_to_le_bytes(types[i]);
        s.write(bytes.as_slice());
        assert(s@ =~= bundle_writes(types@.take(i + 1)));
        i = i + 1;
    }
    assert(types@.take(n as int) =~= types@);
    s.finish()
}

/// The type identifiers of a bundle's components, in declaration order.
pub open spec fn bundle_types<V>(components: Seq<(u64, V)>) -> Seq<u64> {
    Seq::new(components.len(), |i: int| components[i].0)
}

/// No two components of the bundle have the same type.
pub open spec fn distinct_types<V>(components: Seq<(u64, V)>) -> bool {
    bundle_types(components).no_duplicates()
}

/// The record that a bundle stands for: each type mapped to the value that
/// the bundle gives for it.
pub open spec fn bundle_record<V>(components: Seq<(u64, V)>) -> Map<u64, V>
    decreases components.len(),
{
    if components.len() == 0 {
        Map::empty()
    } else {
        bundle_record(components.drop_last()).insert(components.last().0, components.last().1)
    }
}

/// A bundle without repeated types maps each of its types to the value
/// declared with it, and no other type to anything.
pub proof fn lemma_bundle_record<V>(components: Seq<(u64, V)>)
    requires
        distinct_types(components),
    ensures
        bundle_record(components).dom() == bundle_types(components).to_set(),
        forall|k: int|
            0 <= k < components.len() ==> bundle_record(components).contains_key(
                (#[trigger] components[k]).0,
            ) && bundle_record(components)[components[k].0] == components[k].1,
    decreases components.len(),
{
    if components.len() == 0 {
        assert(bundle_record(components).dom() =~= bundle_types(components).to_set());
    } else {
        let front = components.drop_last();
        let last = components.last();
        assert forall|i: int, j: int| 0 <= i < front.len() && 0 <= j < front.len() && i
            != j implies bundle_types(front)[i] != bundle_types(front)[j] by {
            assert(bundle_types(components)[i] != bundle_types(components)[j]);
        }
        lemma_bundle_record(front);
        assert forall|t: u64|
            bundle_record(components).dom().contains(t) <==> bundle_types(
                components,
            ).to_set().contains(t) by {
            if bundle_types(front).contains(t) {
                let i = bundle_types(front).index_of(t);
                assert(bundle_types(components)[i] == t);
            }
            if bundle_types(components).contains(t) {
                let i = bundle_types(components).index_of(t);
                if i < front.len() {
                    assert(bundle_types(front)[i] == t);
                }
            }
            assert(bundle_types(components)[components.len() - 1] == last.0);
        }
        assert(bundle_record(components).dom() =~= bundle_types(components).to_set());
        assert forall|k: int| 0 <= k < components.len() implies bundle_record(
            components,
        ).contains_key((#[trigger] components[k]).0) && bundle_record(
            components,
        )[components[k].0] == components[k].1 by {
            if k < front.len() {
                assert(front[k] == components[k]);
                assert(bundle_types(components)[k] != bundle_types(components)[components.len()
                    - 1]);
            }
        }
    }
}

/// Tells whether no two components name the same type: what `spawn` asks of
/// a bundle.
pub fn has_distinct_types<V>(components: &Vec<(u64, V)>) -> (distinct: bool)
    ensures
        distinct == distinct_types(components@),
{
    let n: usize = components.len();
    let mut i: usize = 0;
    while i < n
        invariant
            i <= n,
            n == components@.len(),
            forall|a: int, b: int|
                0 <= a < b < n && a < i ==> (#[trigger] components@[a]).0 != (
                #[trigger] components@[b]).0,
        decreases n - i,
    {
        let mut j: usize = i + 1;
        while j < n
            invariant
                i < j <= n,
                n == components@.len(),
                forall|b: int| i < b < j ==> components@[i as int].0 != (#[trigger] components@[b]).0,
            decreases n - j,
        {
            if components[i].0 == components[j].0 {
                assert(bundle_types(components@)[i as int] == bundle_types(components@)[j as int]);
                return false;
            }
            j = j + 1;
        }
        i = i + 1;
    }
    assert forall|a: int, b: int|
        0 <= a < n && 0 <= b < n && a != b implies bundle_types(components@)[a] != bundle_types(
        components@,
    )[b] by {
        if a < b {
            assert(components@[a].0 != components@[b].0);
        } else {
            assert(components@[b].0 != components@[a].0);
        }
    }
    true
}

/// The type identifiers of a bundle in canonical order.
pub fn sorted_type_ids<V>(components: &Vec<(u64, V)>) -> (types: Vec<u64>)
    requires
        distinct_types(components@),
    ensures
        strictly_ascending(types@),
        types@ == canonical(bundle_types(components@).to_set()),
        types@.to_set() == bundle_types(components@).to_set(),
        types@.len() == components@.len(),
{
    let n: usize = components.len();
    let mut types: Vec<u64> = Vec::new();
    let mut i: usize = 0;
    assert(types@.to_set() =~= bundle_types(components@).take(0).to_set());
    while i < n
        invariant
            i <= n,
            n == components@.len(),
            distinct_types(components@),
            strictly_ascending(types@),
            types@.len() == i,
            types@.to_set() == bundle_types(components@).take(i as int).to_set(),
        decreases n - i,
    {
        let type_id: u64 = components[i].0;
        let mut position: usize = 0;
        while position < i && types[position] < type_id
            invariant
                position <= i,
                types@.len() == i,
                forall|j: int| 0 <= j < position ==> types@[j] < type_id,
            decreases i - position,
        {
            position = position + 1;
        }
        proof {
            let seen = bundle_types(components@).take(i as int);
            assert(bundle_types(components@)[i as int] == type_id);
            assert forall|j: int| position <= j < types@.len() implies types@[j] > type_id by {
                assert(types@[position as int] <= types@[j]);
                assert(types@.to_set().contains(types@[j]));
                assert(seen.contains(types@[j]));
                let k = seen.index_of(types@[j]);
                assert(bundle_types(components@)[k] != bundle_types(components@)[i as int]);
            }
            lemma_insert_ascending(types@, position as int, type_id);
            lemma_insert_to_set(types@, position as int, type_id);
            assert(bundle_types(components@).take(i + 1) =~= seen.push(type_id));
            assert(seen.push(type_id).to_set() =~= seen.to_set().insert(type_id)) by {
                assert forall|x: u64|
                    seen.push(type_id).to_set().contains(x) <==> seen.to_set().insert(
                        type_id,
                    ).contains(x) by {
                    if seen.push(type_id).contains(x) {
                        let k = seen.push(type_id).index_of(x);
                        if k < seen.len() {
                            assert(seen[k] == x);
                        }
                    }
                    if seen.contains(x) {
                        let k = seen.index_of(x);
                        assert(seen.push(type_id)[k] == x);
                    }
                    assert(seen.push(type_id)[seen.len() as int] == type_id);
                }
            }
        }
        types.insert(position, type_id);
        i = i + 1;
    }
    proof {
        assert(bundle_types(components@).take(n as int) =~= bundle_types(components@));
        lemma_canonical_of_ascending(types@);
    }
    types
}

/// A bundle of components: what an entity is spawned with.
pub trait ComponentBundle<V>: Sized {
    /// The components, each with the identifier of its type, in the order
    /// in which the bundle declares them.
    spec fn components(&self) -> Seq<(u64, V)>;

    /// An archetype without rows whose columns are the bundle's types in
    /// canonical order.
    fn new_archetype(&self) -> (archetype: Archetype<V>)
        requires
            distinct_types(self.components()),
        ensures
            archetype@ == ArchetypeView::<V>::empty(
                canonical(bundle_types(self.components()).to_set()),
            ),
    ;

    /// Appends a row for slot `entity_index` with the bundle's components to
    /// the archetype for the bundle's set of types, creating that archetype
    /// if the world has none, and says where the row is. The registry is
    /// left alone.
    fn spawn_in_world(self, world: &mut World<V>, entity_index: EntityId) -> (location:
        EntityLocation)
        requires
            distinct_types(self.components()),
            layout_wf(old(world).layout(), old(world).bundle_id_to_archetype@),
        ensures
            layout_wf(final(world).layout(), final(world).bundle_id_to_archetype@),
            final(world).entities@ == old(world).entities@,
            final(world).free_entities@ == old(world).free_entities@,
            final(world).layout() == layout_after_spawn(
                old(world).layout(),
                entity_index,
                self.components(),
            ),
            final(world).bundle_id_to_archetype@ == with_archetype_id(
                old(world).layout(),
                old(world).bundle_id_to_archetype@,
                canonical(bundle_types(self.components()).to_set()),
            ),
            location == spawn_location(old(world).layout(), self.components()),
    ;
}

/// Some component at position `from` or later has type `t`.
spec fn declared_from<V>(components: Seq<(u64, V)>, from: int, t: u64) -> bool {
    exists|j: int| from <= j < components.len() && (#[trigger] components[j]).0 == t
}

/// A vector of components, each with the identifier of its type, is a
/// bundle; it declares its components in the order of the vector.
impl<V> ComponentBundle<V> for Vec<(u64, V)> {
    open spec fn components(&self) -> Seq<(u64, V)> {
        self@
    }

    fn new_archetype(&self) -> (archetype: Archetype<V>) {
        let types = sorted_type_ids(self);
        let n: usize = types.len();
        let mut archetype: Archetype<V> = Archetype::new();
        let mut i: usize = 0;
        while i < n
            invariant
                i <= n,
                n == types@.len(),
                archetype.entities@.len() == 0,
                archetype.components@.len() == i,
                forall|j: int|
                    0 <= j < i ==> (#[trigger] archetype.components@[j]).type_id == types@[j]
                        && archetype.components@[j]@ == Seq::<V>::empty(),
            decreases n - i,
        {
            archetype.components.push(ComponentStore::new(types[i]));
            i = i + 1;
        }
        let ghost expected = ArchetypeView::<V>::empty(types@);
        assert(archetype@.entities =~= expected.entities);
        assert(archetype@.types =~= expected.types);
        assert(archetype@.columns =~= expected.columns);
        archetype
    }

    fn spawn_in_world(self, world: &mut World<V>, entity_index: EntityId) -> (location:
        EntityLocation) {
        let ghost components = self@;
        let ghost layout = world.layout();
        let types = sorted_type_ids(&self);
        let bundle_id = calculate_bundle_id(types.as_slice());

        // Find the appropriate archetype; if it doesn't exist create it
        let archetype_index = match world.find_archetype(&types, bundle_id) {
            Some(index) => index,
            None => {
                let archetype = self.new_archetype();
                world.insert_archetype(bundle_id, archetype)
            },
        };
        let ghost grown = world.layout();
        let ghost target = grown[archetype_index as int];
        let ghost record = bundle_record(components);
        proof {
            assert(grown == with_archetype(layout, types@));
            assert(archetype_index == archetype_position(layout, types@));
            assert(target.types == types@);
            assert(target.wf());
            lemma_bundle_record(components);
        }
        let row: usize = world.archetypes[archetype_index].len();
        let ghost archetypes = world.archetypes@;
        world.archetypes[archetype_index].entities.push(entity_index);
        proof {
            lemma_layout_of_update(
                archetypes,
                archetype_index as int,
                world.archetypes@[archetype_index as int],
            );
        }

        let mut rest = self;
        while rest.len() > 0
            invariant
                rest@ == components.take(rest@.len() as int),
                rest@.len() <= components.len(),
                distinct_types(components),
                record == bundle_record(components),
                forall|k: int|
                    0 <= k < components.len() ==> record.contains_key(
                        (#[trigger] components[k]).0,
                    ) && record[components[k].0] == components[k].1,
                types@.to_set() == bundle_types(components).to_set(),
                strictly_ascending(types@),
                archetype_index < grown.len(),
                target == grown[archetype_index as int],
                target.wf(),
                target.types == types@,
                world.archetypes@.len() == grown.len(),
                world.entities@ == old(world).entities@,
                world.free_entities@ == old(world).free_entities@,
                layout_wf(grown, world.bundle_id_to_archetype@),
                world.bundle_id_to_archetype@ == with_archetype_id(
                    layout,
                    old(world).bundle_id_to_archetype@,
                    types@,
                ),
                forall|i: int|
                    0 <= i < grown.len() && i != archetype_index ==> (#[trigger] world.layout()[i])
                        == grown[i],
                world.layout()[archetype_index as int].types == target.types,
                world.layout()[archetype_index as int].entities == target.entities.push(
                    entity_index,
                ),
                world.layout()[archetype_index as int].columns.len() == target.columns.len(),
                forall|c: int|
                    0 <= c < target.columns.len() ==> (
                    #[trigger] world.layout()[archetype_index as int].columns[c]) == if declared_from(
                        components,
                        rest@.len() as int,
                        types@[c],
                    ) {
                        target.columns[c].push(record[types@[c]])
                    } else {
                        target.columns[c]
                    },
            decreases rest@.len(),
        {
            let ghost before = world.layout()[archetype_index as int];
            let ghost k = rest@.len() - 1;
            let (type_id, value) = rest.pop().unwrap();
            assert(components[k] == (type_id, value));
            proof {
                assert(bundle_types(components)[k] == type_id);
                assert(bundle_types(components).to_set().contains(type_id));
                assert(types@.contains(type_id));
            }
            let column = world.archetypes[archetype_index].search_type(type_id).unwrap();
            let ghost archetypes = world.archetypes@;
            world.archetypes[archetype_index].push(column, value);
            proof {
                lemma_layout_of_update(
                    archetypes,
                    archetype_index as int,
                    world.archetypes@[archetype_index as int],
                );
                let after = world.layout()[archetype_index as int];
                assert(after.columns[column as int] == before.columns[column as int].push(value));
                assert(!declared_from(components, k + 1, type_id)) by {
                    if declared_from(components, k + 1, type_id) {
                        let j = choose|j: int|
                            k + 1 <= j < components.len() && (#[trigger] components[j]).0
                                == type_id;
                        assert(bundle_types(components)[j] == bundle_types(components)[k]);
                    }
                }
                assert(declared_from(components, k, type_id));
                assert forall|c: int| 0 <= c < target.columns.len() implies (
                #[trigger] after.columns[c]) == if declared_from(components, k, types@[c]) {
                    target.columns[c].push(record[types@[c]])
                } else {
                    target.columns[c]
                } by {
                    if c != column {
                        assert(after.columns[c] == before.columns[c]);
                        assert(types@[c] != type_id);
                        if declared_from(components, k, types@[c]) {
                            let j = choose|j: int|
                                k <= j < components.len() && (#[trigger] components[j]).0
                                    == types@[c];
                            assert(j != k);
                            assert(declared_from(components, k + 1, types@[c]));
                        }
                        if declared_from(components, k + 1, types@[c]) {
                            let j = choose|j: int|
                                k + 1 <= j < components.len() && (#[trigger] components[j]).0
                                    == types@[c];
                            assert(declared_from(components, k, types@[c]));
                        }
                    }
                }
                assert(rest@ =~= components.take(k));
            }
        }
        proof {
            let after = world.layout()[archetype_index as int];
            let values = values_in_order(types@, record);
            assert forall|c: int| 0 <= c < target.columns.len() implies (
            #[trigger] after.columns[c]) == target.columns[c].push(values[c]) by {
                assert(types@.to_set().contains(types@[c]));
                assert(bundle_types(components).contains(types@[c]));
                let j = bundle_types(components).index_of(types@[c]);
                assert(components[j].0 == types@[c]);
                assert(declared_from(components, 0, types@[c]));
            }
            assert(after.columns =~= target.with_row(entity_index, values).columns);
            assert(after == target.with_row(entity_index, values));
            assert(world.layout() =~= grown.update(
                archetype_index as int,
                target.with_row(entity_index, values),
            ));
            lemma_with_row(target, entity_index, values);
            lemma_layout_update(
                grown,
                world.bundle_id_to_archetype@,
                archetype_index as int,
                target.with_row(entity_index, values),
            );
        }
        EntityLocation {
            archetype_index: archetype_index as EntityId,
            index_in_archetype: row as EntityId,
        }
    }
}

} // verus!
