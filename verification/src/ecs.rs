//! A plain component store without archetypes: one column per component
//! type, holding one optional value for every entity.

use vstd::prelude::*;

verus! {

/// A sample component: hit points.
#[derive(Debug)]
pub struct Health(pub i32);

/// A sample component: what an entity is called.
#[derive(Debug)]
pub struct Name(pub &'static str);

/// The column of one component type: for each entity, its component of
/// that type if it has one.
pub struct ComponentVec<V> {
    pub type_id: u64,
    pub components: Vec<Option<V>>,
}

impl<V> View for ComponentVec<V> {
    type V = Seq<Option<V>>;

    /// The optional components, by entity.
    open spec fn view(&self) -> Seq<Option<V>> {
        self.components@
    }
}

/// Where all component data is stored.
pub struct World<V> {
    /// Number of entities made so far; the next entity gets this number.
    pub ent_count: usize,
    /// One column for each component type that some entity was ever given.
    pub component_vecs: Vec<ComponentVec<V>>,
}

/// A column in which no entity has a component.
pub open spec fn empty_column<V>(ent_count: int) -> Seq<Option<V>> {
    Seq::new(ent_count as nat, |i: int| None::<V>)
}

impl<V> World<V> {
    /// The component types that have a column, in column order.
    pub open spec fn types(&self) -> Seq<u64> {
        Seq::new(self.component_vecs@.len(), |i: int| self.component_vecs@[i].type_id)
    }

    /// The columns, in column order.
    pub open spec fn columns(&self) -> Seq<Seq<Option<V>>> {
        Seq::new(self.component_vecs@.len(), |i: int| self.component_vecs@[i]@)
    }

    /// No type has two columns, and every column has a place for every
    /// entity.
    pub open spec fn wf(&self) -> bool {
        &&& self.types().no_duplicates()
        &&& forall|i: int|
            0 <= i < self.columns().len() ==> (#[trigger] self.columns()[i]).len()
                == self.ent_count
    }

    /// The component of type `type_id` that `entity` has, if any.
    pub open spec fn component(&self, entity: int, type_id: u64) -> Option<V> {
        if self.types().contains(type_id) && 0 <= entity < self.ent_count {
            self.columns()[self.types().index_of(type_id)][entity]
        } else {
            None
        }
    }

    /// A world without entities and without columns.
    pub fn new() -> (world: Self)
        ensures
            world.wf(),
            world.ent_count == 0,
            world.types() == Seq::<u64>::empty(),
            world.columns() == Seq::<Seq<Option<V>>>::empty(),
    {
        let world = World { ent_count: 0, component_vecs: Vec::new() };
        assert(world.types() =~= Seq::<u64>::empty());
        assert(world.columns() =~= Seq::<Seq<Option<V>>>::empty());
        world
    }

    /// Create a new entity and add it to the world. Returns unique entity ID.
    /// The entity starts without components.
    pub fn new_entity(&mut self) -> (ent_id: usize)
        requires
            old(self).wf(),
            old(self).ent_count < usize::MAX,
        ensures
            final(self).wf(),
            ent_id == old(self).ent_count,
            final(self).ent_count == old(self).ent_count + 1,
            final(self).types() == old(self).types(),
            final(self).columns().len() == old(self).columns().len(),
            forall|i: int|
                0 <= i < old(self).columns().len() ==> (#[trigger] final(self).columns()[i])
                    == old(self).columns()[i].push(None),
            forall|entity: int, type_id: u64|
                final(self).component(entity, type_id) == old(self).component(entity, type_id),
    {
        let ent_id = self.ent_count;
        let n: usize = self.component_vecs.len();
        let mut i: usize = 0;
        while i < n
            invariant
                i <= n,
                n == self.component_vecs@.len(),
                n == old(self).component_vecs@.len(),
                self.ent_count == old(self).ent_count,
                self.types() == old(self).types(),
                forall|j: int|
                    0 <= j < i ==> (#[trigger] self.columns()[j]) == old(self).columns()[j].push(
                        None,
                    ),
                forall|j: int| i <= j < n ==> (#[trigger] self.columns()[j]) == old(self).columns()[j],
            decreases n - i,
        {
            let ghost before = self.columns();
            self.component_vecs[i].components.push(None);  // initialized with no components
            assert(self.types() =~= old(self).types());
            assert(self.columns()[i as int] == before[i as int].push(None));
            assert forall|j: int| 0 <= j < n && j != i implies (#[trigger] self.columns()[j])
                == before[j] by {}
            assert forall|j: int| 0 <= j < i implies (#[trigger] self.columns()[j]) == old(
                self,
            ).columns()[j].push(None) by {
                assert(self.columns()[j] == before[j]);
            }
            i = i + 1;
        }
        let ghost pushed = self.columns();
        self.ent_count += 1;
        proof {
            assert(self.columns() =~= pushed);
            assert forall|j: int| 0 <= j < self.columns().len() implies (
            #[trigger] self.columns()[j]).len() == self.ent_count by {
                assert(pushed[j] == old(self).columns()[j].push(None));
                assert(old(self).columns()[j].len() == old(self).ent_count);
            }
            assert forall|entity: int, type_id: u64|
                self.component(entity, type_id) == old(self).component(entity, type_id) by {
                if self.types().contains(type_id) {
                    let c = self.types().index_of(type_id);
                    assert(self.types()[c] == type_id);
                    assert(pushed[c] == old(self).columns()[c].push(None));
                    assert(old(self).columns()[c].len() == old(self).ent_count);
                }
            }
        }
        ent_id
    }

    /// Position of the column of `type_id`, if there is one.
    fn find_column(&self, type_id: u64) -> (found: Option<usize>)
        requires
            self.wf(),
        ensures
            match found {
                Some(i) => self.types().contains(type_id) && i == self.types().index_of(type_id)
                    && i < self.types().len(),
                None => !self.types().contains(type_id),
            },
    {
        let n: usize = self.component_vecs.len();
        let mut i: usize = 0;
        while i < n
            invariant
                i <= n,
                n == self.component_vecs@.len(),
                self.wf(),
                forall|j: int| 0 <= j < i ==> self.types()[j] != type_id,
            decreases n - i,
        {
            if self.component_vecs[i].type_id == type_id {
                proof {
                    assert(self.types()[i as int] == type_id);
                    let k = self.types().index_of(type_id);
                    assert(self.types()[k] == type_id);
                }
                return Some(i);
            }
            i = i + 1;
        }
        None
    }

    /// Gives `entity` the component `component` of type `type_id`, in place
    /// of the one it had, if any. The first component of a type makes the
    /// column for it, in which no other entity has a component.
    pub fn add_component_to_entity(&mut self, entity: usize, type_id: u64, component: V)
        requires
            old(self).wf(),
            entity < old(self).ent_count,
        ensures
            final(self).wf(),
            final(self).ent_count == old(self).ent_count,
            old(self).types().contains(type_id) ==> {
                let c = old(self).types().index_of(type_id);
                &&& final(self).types() == old(self).types()
                &&& final(self).columns() == old(self).columns().update(
                    c,
                    old(self).columns()[c].update(entity as int, Some(component)),
                )
            },
            !old(self).types().contains(type_id) ==> {
                &&& final(self).types() == old(self).types().push(type_id)
                &&& final(self).columns() == old(self).columns().push(
                    empty_column::<V>(old(self).ent_count as int).update(
                        entity as int,
                        Some(component),
                    ),
                )
            },
            forall|e: int, t: u64|
                final(self).component(e, t) == if e == entity && t == type_id {
                    Some(component)
                } else {
                    old(self).component(e, t)
                },
    {
        match self.find_column(type_id) {
            Some(c) => {
                // A column for this type exists: insert the component
                assert(self.columns()[c as int].len() == self.ent_count);
                self.component_vecs[c].components[entity] = Some(component);
                proof {
                    assert(self.types() =~= old(self).types());
                    assert(self.columns() =~= old(self).columns().update(
                        c as int,
                        old(self).columns()[c as int].update(entity as int, Some(component)),
                    ));
                    assert forall|i: int| 0 <= i < self.columns().len() implies (
                    #[trigger] self.columns()[i]).len() == self.ent_count by {
                        assert(old(self).columns()[i].len() == old(self).ent_count);
                    }
                    assert forall|e: int, t: u64|
                        self.component(e, t) == if e == entity && t == type_id {
                            Some(component)
                        } else {
                            old(self).component(e, t)
                        } by {
                        if self.types().contains(t) {
                            let k = self.types().index_of(t);
                            assert(self.types()[k] == t);
                            assert(self.types()[c as int] == type_id);
                        }
                    }
                }
            },
            None => {
                // Otherwise, no matching component storage exists. One must be made!
                let mut new_component_vec: Vec<Option<V>> = Vec::new();
                // All existing entities don't have this component, so give them `None`
                let mut i: usize = 0;
                while i < self.ent_count
                    invariant
                        i <= self.ent_count,
                        new_component_vec@ == empty_column::<V>(i as int),
                    decreases self.ent_count - i,
                {
                    new_component_vec.push(None);
                    assert(new_component_vec@ =~= empty_column::<V>(i + 1));
                    i = i + 1;
                }
                // Give this entity the component.
                new_component_vec[entity] = Some(component);
                self.component_vecs.push(ComponentVec { type_id, components: new_component_vec });
                proof {
                    let last = old(self).types().len() as int;
                    assert(self.types() =~= old(self).types().push(type_id));
                    assert(self.columns() =~= old(self).columns().push(
                        empty_column::<V>(old(self).ent_count as int).update(
                            entity as int,
                            Some(component),
                        ),
                    ));
                    assert forall|i: int| 0 <= i < self.columns().len() implies (
                    #[trigger] self.columns()[i]).len() == self.ent_count by {
                        if i < last {
                            assert(old(self).columns()[i].len() == old(self).ent_count);
                        }
                    }
                    assert forall|a: int, b: int|
                        0 <= a < self.types().len() && 0 <= b < self.types().len() && a
                            != b implies self.types()[a] != self.types()[b] by {
                        if a < last && b < last {
                            assert(old(self).types()[a] != old(self).types()[b]);
                        } else if a < last {
                            assert(old(self).types().contains(old(self).types()[a]));
                        } else {
                            assert(old(self).types().contains(old(self).types()[b]));
                        }
                    }
                    assert forall|e: int, t: u64|
                        self.component(e, t) == if e == entity && t == type_id {
                            Some(component)
                        } else {
                            old(self).component(e, t)
                        } by {
                        assert(self.types()[last] == type_id);
                        if self.types().contains(t) {
                            let k = self.types().index_of(t);
                            assert(self.types()[k] == t);
                            if t != type_id {
                                assert(k < last);
                                assert(old(self).types()[k] == t);
                                let k0 = old(self).types().index_of(t);
                                assert(old(self).types()[k0] == t);
                                assert(self.types()[k0] == t);
                            }
                        }
                        if old(self).types().contains(t) {
                            let k0 = old(self).types().index_of(t);
                            assert(self.types()[k0] == t);
                        }
                    }
                }
            },
        }
    }

    /// Finds and borrows the column that matches a type (if it exists).
    /// Whatever is done to the column through the reference is done to the
    /// world's column of that type, and to nothing else.
    pub fn borrow_component_vec_mut(&mut self, type_id: u64) -> (column: Option<
        &mut Vec<Option<V>>,
    >)
        requires
            old(self).wf(),
        ensures
            column is Some <==> old(self).types().contains(type_id),
            final(self).ent_count == old(self).ent_count,
            final(self).types() == old(self).types(),
            match column {
                Some(components) => {
                    let c = old(self).types().index_of(type_id);
                    &&& components@ == old(self).columns()[c]
                    &&& final(self).columns() == old(self).columns().update(
                        c,
                        final(components)@,
                    )
                },
                None => final(self).columns() == old(self).columns(),
            },
    {
        match self.find_column(type_id) {
            Some(c) => {
                proof {
                    assert forall|after: ComponentVec<V>|
                        after.type_id == type_id implies Seq::new(
                        (#[trigger] old(self).component_vecs@.update(c as int, after)).len(),
                        |i: int| old(self).component_vecs@.update(c as int, after)[i].type_id,
                    ) == old(self).types() by {
                        assert(old(self).types()[c as int] == type_id);
                        assert(Seq::new(
                            old(self).component_vecs@.update(c as int, after).len(),
                            |i: int| old(self).component_vecs@.update(c as int, after)[i].type_id,
                        ) =~= old(self).types());
                    }
                    assert forall|after: ComponentVec<V>|
                        Seq::new(
                            (#[trigger] old(self).component_vecs@.update(c as int, after)).len(),
                            |i: int| old(self).component_vecs@.update(c as int, after)[i]@,
                        ) == old(self).columns().update(c as int, after@) by {
                        assert(Seq::new(
                            old(self).component_vecs@.update(c as int, after).len(),
                            |i: int| old(self).component_vecs@.update(c as int, after)[i]@,
                        ) =~= old(self).columns().update(c as int, after@));
                    }
                }
                Some(&mut self.component_vecs[c].components)
            },
            None => None,
        }
    }
}

} // verus!
