//! Queries: reading the components of given types from every entity that has
//! all of them.

use vstd::prelude::*;
use crate::archetype::{Archetype, ArchetypeView};
use crate::entity::{Entity, EntityId};
use crate::error::FetchError;
use crate::record::{lemma_ascending_index_of, values_in_order};
use crate::registry::{
    generations_advance, lemma_layout_update, lemma_replace_value, live, owns,
};
use crate::world::{layout_of, lemma_layout_of_update, World};

verus! {

/// The archetype has a column for every one of the requested types.
pub open spec fn matches_query<V>(archetype: ArchetypeView<V>, types: Seq<u64>) -> bool {
    forall|k: int| 0 <= k < types.len() ==> archetype.types.contains(#[trigger] types[k])
}

/// What a query for `types` yields from one archetype: for each row, in row
/// order, the row's components of the requested types in the order
/// requested; nothing if the archetype lacks one of the types.
pub open spec fn selected_rows<V>(archetype: ArchetypeView<V>, types: Seq<u64>) -> Seq<Seq<V>> {
    if matches_query(archetype, types) {
        Seq::new(archetype.rows(), |r: int| values_in_order(types, archetype.row(r)))
    } else {
        Seq::empty()
    }
}

/// What a query for `types` yields from a world with this layout: the rows
/// selected from each archetype, archetype after archetype in storage order.
pub open spec fn query_rows<V>(layout: Seq<ArchetypeView<V>>, types: Seq<u64>) -> Seq<Seq<V>>
    decreases layout.len(),
{
    if layout.len() == 0 {
        Seq::empty()
    } else {
        query_rows(layout.drop_last(), types) + selected_rows(layout.last(), types)
    }
}

/// The owners of the rows that a query for `types` yields, in the order of
/// the rows: the registry indices of the entities.
pub open spec fn query_owners<V>(layout: Seq<ArchetypeView<V>>, types: Seq<u64>) -> Seq<EntityId>
    decreases layout.len(),
{
    if layout.len() == 0 {
        Seq::empty()
    } else {
        query_owners(layout.drop_last(), types) + if matches_query(layout.last(), types) {
            layout.last().entities
        } else {
            Seq::empty()
        }
    }
}

/// Some archetype has a column for every one of the requested types.
pub open spec fn query_matches<V>(layout: Seq<ArchetypeView<V>>, types: Seq<u64>) -> bool {
    exists|i: int| 0 <= i < layout.len() && matches_query(#[trigger] layout[i], types)
}

/// The archetype holds at least one component of type `type_id`.
pub open spec fn holds_single<V>(archetype: ArchetypeView<V>, type_id: u64) -> bool {
    archetype.types.contains(type_id) && archetype.rows() > 0
}

/// Position of the first archetype, in storage order, that holds a component
/// of type `type_id`; `None` if there is none.
pub open spec fn first_holder<V>(layout: Seq<ArchetypeView<V>>, type_id: u64) -> Option<int>
    decreases layout.len(),
{
    if layout.len() == 0 {
        None
    } else {
        match first_holder(layout.drop_last(), type_id) {
            Some(i) => Some(i),
            None => if holds_single(layout.last(), type_id) {
                Some(layout.len() - 1)
            } else {
                None
            },
        }
    }
}

/// The first holder is an archetype that holds the type, and none before it
/// does; there is no first holder exactly when no archetype holds the type.
pub proof fn lemma_first_holder<V>(layout: Seq<ArchetypeView<V>>, type_id: u64)
    ensures
        match first_holder(layout, type_id) {
            Some(i) => {
                &&& 0 <= i < layout.len()
                &&& holds_single(layout[i], type_id)
                &&& forall|j: int| 0 <= j < i ==> !holds_single(#[trigger] layout[j], type_id)
            },
            None => forall|j: int|
                0 <= j < layout.len() ==> !holds_single(#[trigger] layout[j], type_id),
        },
    decreases layout.len(),
{
    if layout.len() > 0 {
        let front = layout.drop_last();
        lemma_first_holder(front, type_id);
        match first_holder(front, type_id) {
            Some(i) => {
                assert(front[i] == layout[i]);
                assert forall|j: int| 0 <= j < i implies !holds_single(
                    #[trigger] layout[j],
                    type_id,
                ) by {
                    assert(front[j] == layout[j]);
                }
            },
            None => {
                assert forall|j: int| 0 <= j < layout.len() - 1 implies !holds_single(
                    #[trigger] layout[j],
                    type_id,
                ) by {
                    assert(front[j] == layout[j]);
                }
            },
        }
    }
}

/// An archetype that holds the type, with none before it that does, is the
/// first holder.
pub proof fn lemma_first_holder_is<V>(layout: Seq<ArchetypeView<V>>, type_id: u64, i: int)
    requires
        0 <= i < layout.len(),
        holds_single(layout[i], type_id),
        forall|j: int| 0 <= j < i ==> !holds_single(#[trigger] layout[j], type_id),
    ensures
        first_holder(layout, type_id) == Some(i),
{
    lemma_first_holder(layout, type_id);
    match first_holder(layout, type_id) {
        Some(k) => {
            if k < i {
                assert(!holds_single(layout[k], type_id));
            } else if i < k {
                assert(!holds_single(layout[i], type_id));
            }
        },
        None => {
            assert(!holds_single(layout[i], type_id));
        },
    }
}

/// A query over the first `n` archetypes yields what the query over one
/// archetype less yields, followed by the rows selected from the last one.
pub proof fn lemma_query_rows_step<V>(layout: Seq<ArchetypeView<V>>, types: Seq<u64>, n: int)
    requires
        0 <= n < layout.len(),
    ensures
        query_rows(layout.take(n + 1), types) == query_rows(layout.take(n), types) + selected_rows(
            layout[n],
            types,
        ),
        query_owners(layout.take(n + 1), types) == query_owners(layout.take(n), types)
            + if matches_query(layout[n], types) {
            layout[n].entities
        } else {
            Seq::empty()
        },
{
    assert(layout.take(n + 1).drop_last() =~= layout.take(n));
    assert(layout.take(n + 1).last() == layout[n]);
}

impl<V> World<V> {
    /// Query for the components of the given types of every entity that has
    /// all of them.
    ///
    /// Each row of the result belongs to one entity and lists its components
    /// in the order of `types`. Rows come archetype by archetype in storage
    /// order, and in row order within an archetype. Fails with `FetchError`
    /// when no archetype has all the types.
    pub fn query(&self, types: &Vec<u64>) -> (r: Result<Vec<Vec<&V>>, FetchError>)
        requires
            self.wf(),
        ensures
            r is Ok <==> query_matches(self.layout(), types@),
            r matches Ok(rows) ==> {
                let expected = query_rows(self.layout(), types@);
                &&& rows@.len() == expected.len()
                &&& forall|i: int|
                    0 <= i < rows@.len() ==> (#[trigger] rows@[i])@.len() == types@.len()
                &&& forall|i: int, k: int|
                    0 <= i < rows@.len() && 0 <= k < types@.len() ==> *(#[trigger] rows@[i]@[k])
                        == expected[i][k]
            },
    {
        let ghost layout = self.layout();
        let width: usize = types.len();
        let n: usize = self.archetypes.len();
        let mut rows: Vec<Vec<&V>> = Vec::new();
        let mut found: bool = false;
        let mut a: usize = 0;
        assert(layout.take(0) =~= Seq::<ArchetypeView<V>>::empty());
        while a < n
            invariant
                a <= n,
                n == self.archetypes@.len(),
                width == types@.len(),
                layout == self.layout(),
                self.wf(),
                found <==> query_matches(layout.take(a as int), types@),
                rows@.len() == query_rows(layout.take(a as int), types@).len(),
                forall|i: int|
                    0 <= i < rows@.len() ==> (#[trigger] rows@[i])@.len() == types@.len(),
                forall|i: int, k: int|
                    0 <= i < rows@.len() && 0 <= k < types@.len() ==> *(#[trigger] rows@[i]@[k])
                        == query_rows(layout.take(a as int), types@)[i][k],
            decreases n - a,
        {
            let archetype = &self.archetypes[a];
            let ghost content = layout[a as int];
            assert(content == archetype@);
            assert(content.wf());
            let ghost before = query_rows(layout.take(a as int), types@);
            proof {
                lemma_query_rows_step(layout, types@, a as int);
            }
            // Resolve the column of each requested type
            let mut columns: Vec<usize> = Vec::new();
            let mut matched: bool = true;
            let mut k: usize = 0;
            while matched && k < width
                invariant
                    k <= width,
                    width == types@.len(),
                    content == archetype@,
                    content.wf(),
                    matched ==> columns@.len() == k,
                    matched ==> forall|j: int|
                        0 <= j < k ==> (#[trigger] columns@[j]) < content.types.len()
                            && content.types[columns@[j] as int] == types@[j],
                    !matched ==> !matches_query(content, types@),
                decreases (if matched { 1int } else { 0int }), width - k,
            {
                match archetype.search_type(types[k]) {
                    Ok(column) => {
                        columns.push(column);
                        k = k + 1;
                    },
                    Err(_) => {
                        assert(!content.types.contains(types@[k as int]));
                        matched = false;
                    },
                }
            }
            if matched {
                proof {
                    assert forall|j: int| 0 <= j < types@.len() implies content.types.contains(
                        #[trigger] types@[j],
                    ) by {
                        assert(content.types[columns@[j] as int] == types@[j]);
                    }
                    assert(matches_query(content, types@));
                }
                found = true;
                let count: usize = archetype.len();
                let mut r: usize = 0;
                while r < count
                    invariant
                        r <= count,
                        count == content.rows(),
                        width == types@.len(),
                        content == archetype@,
                        content.wf(),
                        columns@.len() == width,
                        forall|j: int|
                            0 <= j < width ==> (#[trigger] columns@[j]) < content.types.len()
                                && content.types[columns@[j] as int] == types@[j],
                        matches_query(content, types@),
                        rows@.len() == before.len() + r,
                        forall|i: int|
                            0 <= i < rows@.len() ==> (#[trigger] rows@[i])@.len() == types@.len(),
                        forall|i: int, k: int|
                            0 <= i < rows@.len() && 0 <= k < types@.len() ==> *(
                            #[trigger] rows@[i]@[k]) == (before + selected_rows(
                                content,
                                types@,
                            ))[i][k],
                    decreases count - r,
                {
                    let mut row: Vec<&V> = Vec::new();
                    let mut k: usize = 0;
                    while k < width
                        invariant
                            k <= width,
                            width == types@.len(),
                            r < count,
                            count == content.rows(),
                            content == archetype@,
                            content.wf(),
                            columns@.len() == width,
                            forall|j: int|
                                0 <= j < width ==> (#[trigger] columns@[j]) < content.types.len()
                                    && content.types[columns@[j] as int] == types@[j],
                            row@.len() == k,
                            forall|j: int|
                                0 <= j < k ==> *(#[trigger] row@[j]) == values_in_order(
                                    types@,
                                    content.row(r as int),
                                )[j],
                        decreases width - k,
                    {
                        let column: usize = columns[k];
                        proof {
                            lemma_ascending_index_of(content.types, column as int);
                            assert(content.columns[column as int].len() == content.entities.len());
                            assert(content.row_values(r as int)[column as int]
                                == content.columns[column as int][r as int]);
                        }
                        let store = archetype.get(column);
                        row.push(&store[r]);
                        k = k + 1;
                    }
                    rows.push(row);
                    r = r + 1;
                }
            } else {
                assert(selected_rows(content, types@) =~= Seq::<Seq<V>>::empty());
                assert(before + selected_rows(content, types@) =~= before);
            }
            proof {
                assert(layout.take(a + 1)[a as int] == content);
                if query_matches(layout.take(a + 1), types@) {
                    let i = choose|i: int|
                        0 <= i < layout.take(a + 1).len() && matches_query(
                            #[trigger] layout.take(a + 1)[i],
                            types@,
                        );
                    if i < a {
                        assert(layout.take(a as int)[i] == layout.take(a + 1)[i]);
                    }
                }
                if query_matches(layout.take(a as int), types@) {
                    let i = choose|i: int|
                        0 <= i < layout.take(a as int).len() && matches_query(
                            #[trigger] layout.take(a as int)[i],
                            types@,
                        );
                    assert(layout.take(a + 1)[i] == layout.take(a as int)[i]);
                }
            }
            a = a + 1;
        }
        assert(layout.take(n as int) =~= layout);
        if found {
            Ok(rows)
        } else {
            Err(FetchError)
        }
    }

    /// Query for the entities that have components of all the given types.
    ///
    /// The handles come in the order in which `query` yields the rows of
    /// these entities: the handle at a position is live and names the entity
    /// whose components the row at that position lists. Fails with
    /// `FetchError` when no archetype has all the types.
    pub fn query_entities(&self, types: &Vec<u64>) -> (r: Result<Vec<Entity>, FetchError>)
        requires
            self.wf(),
        ensures
            r is Ok <==> query_matches(self.layout(), types@),
            r matches Ok(handles) ==> {
                &&& handles@.len() == query_rows(self.layout(), types@).len()
                &&& handles@.len() == query_owners(self.layout(), types@).len()
                &&& forall|i: int|
                    0 <= i < handles@.len() ==> {
                        &&& (#[trigger] handles@[i]).index == query_owners(
                            self.layout(),
                            types@,
                        )[i]
                        &&& self@.contains_key(handles@[i])
                        &&& values_in_order(types@, self@[handles@[i]]) == query_rows(
                            self.layout(),
                            types@,
                        )[i]
                    }
            },
    {
        let ghost layout = self.layout();
        let width: usize = types.len();
        let n: usize = self.archetypes.len();
        let mut handles: Vec<Entity> = Vec::new();
        let mut found: bool = false;
        let mut a: usize = 0;
        assert(layout.take(0) =~= Seq::<ArchetypeView<V>>::empty());
        while a < n
            invariant
                a <= n,
                n == self.archetypes@.len(),
                width == types@.len(),
                layout == self.layout(),
                self.wf(),
                found <==> query_matches(layout.take(a as int), types@),
                handles@.len() == query_rows(layout.take(a as int), types@).len(),
                handles@.len() == query_owners(layout.take(a as int), types@).len(),
                forall|i: int|
                    0 <= i < handles@.len() ==> {
                        &&& (#[trigger] handles@[i]).index == query_owners(
                            layout.take(a as int),
                            types@,
                        )[i]
                        &&& self@.contains_key(handles@[i])
                        &&& values_in_order(types@, self@[handles@[i]]) == query_rows(
                            layout.take(a as int),
                            types@,
                        )[i]
                    },
            decreases n - a,
        {
            let archetype = &self.archetypes[a];
            let ghost content = layout[a as int];
            assert(content == archetype@);
            assert(content.wf());
            let ghost rows_before = query_rows(layout.take(a as int), types@);
            let ghost owners_before = query_owners(layout.take(a as int), types@);
            proof {
                lemma_query_rows_step(layout, types@, a as int);
            }
            let mut matched: bool = true;
            let mut k: usize = 0;
            while matched && k < width
                invariant
                    k <= width,
                    width == types@.len(),
                    content == archetype@,
                    content.wf(),
                    matched ==> forall|j: int|
                        0 <= j < k ==> content.types.contains(#[trigger] types@[j]),
                    !matched ==> !matches_query(content, types@),
                decreases (if matched { 1int } else { 0int }), width - k,
            {
                match archetype.search_type(types[k]) {
                    Ok(column) => {
                        assert(content.types[column as int] == types@[k as int]);
                        k = k + 1;
                    },
                    Err(_) => {
                        assert(!content.types.contains(types@[k as int]));
                        matched = false;
                    },
                }
            }
            if matched {
                assert(matches_query(content, types@));
                found = true;
                let count: usize = archetype.len();
                let mut r: usize = 0;
                while r < count
                    invariant
                        r <= count,
                        count == content.rows(),
                        a < n,
                        n == self.archetypes@.len(),
                        layout == self.layout(),
                        content == layout[a as int],
                        content == archetype@,
                        self.wf(),
                        matches_query(content, types@),
                        handles@.len() == rows_before.len() + r,
                        rows_before.len() == owners_before.len(),
                        forall|i: int|
                            0 <= i < handles@.len() ==> {
                                &&& (#[trigger] handles@[i]).index == (owners_before
                                    + content.entities)[i]
                                &&& self@.contains_key(handles@[i])
                                &&& values_in_order(types@, self@[handles@[i]]) == (rows_before
                                    + selected_rows(content, types@))[i]
                            },
                    decreases count - r,
                {
                    let index: EntityId = archetype.entities[r];
                    proof {
                        assert(owns(self.entities@, layout[a as int].entities[r as int], a as int, r as int));
                    }
                    let generation: EntityId = self.entities[index as usize].generation;
                    handles.push(Entity { index, generation });
                    r = r + 1;
                }
            } else {
                assert(selected_rows(content, types@) =~= Seq::<Seq<V>>::empty());
                assert(rows_before + selected_rows(content, types@) =~= rows_before);
                assert(owners_before + Seq::<EntityId>::empty() =~= owners_before);
            }
            proof {
                assert(layout.take(a + 1)[a as int] == content);
                if query_matches(layout.take(a + 1), types@) {
                    let i = choose|i: int|
                        0 <= i < layout.take(a + 1).len() && matches_query(
                            #[trigger] layout.take(a + 1)[i],
                            types@,
                        );
                    if i < a {
                        assert(layout.take(a as int)[i] == layout.take(a + 1)[i]);
                    }
                }
                if query_matches(layout.take(a as int), types@) {
                    let i = choose|i: int|
                        0 <= i < layout.take(a as int).len() && matches_query(
                            #[trigger] layout.take(a as int)[i],
                            types@,
                        );
                    assert(layout.take(a + 1)[i] == layout.take(a as int)[i]);
                }
            }
            a = a + 1;
        }
        assert(layout.take(n as int) =~= layout);
        if found {
            Ok(handles)
        } else {
            Err(FetchError)
        }
    }

    /// Where the first instance of a component of type `type_id` is stored:
    /// the first archetype that holds the type, and the column of the type
    /// in it.
    fn find_single(&self, type_id: u64) -> (r: Option<(usize, usize)>)
        requires
            self.wf(),
        ensures
            match r {
                Some((i, column)) => {
                    &&& first_holder(self.layout(), type_id) == Some(i as int)
                    &&& i < self.layout().len()
                    &&& holds_single(self.layout()[i as int], type_id)
                    &&& column == self.layout()[i as int].types.index_of(type_id)
                    &&& column < self.layout()[i as int].types.len()
                },
                None => first_holder(self.layout(), type_id) is None,
            },
    {
        let n: usize = self.archetypes.len();
        let mut i: usize = 0;
        while i < n
            invariant
                i <= n,
                n == self.archetypes@.len(),
                self.wf(),
                forall|j: int| 0 <= j < i ==> !holds_single(#[trigger] self.layout()[j], type_id),
            decreases n - i,
        {
            let archetype = &self.archetypes[i];
            assert(archetype@ == self.layout()[i as int]);
            assert(archetype@.wf());
            if archetype.len() > 0 {
                match archetype.search_type(type_id) {
                    Ok(column) => {
                        proof {
                            lemma_ascending_index_of(archetype@.types, column as int);
                            lemma_first_holder_is(self.layout(), type_id, i as int);
                        }
                        return Some((i, column));
                    },
                    Err(_) => {},
                }
            }
            i = i + 1;
        }
        proof {
            lemma_first_holder(self.layout(), type_id);
        }
        None
    }

    /// Query for an *immutable* reference to the first instance of a
    /// component found: the one in the first row of the first archetype, in
    /// storage order, that holds a component of type `type_id`. Fails with
    /// `FetchError` when the world holds no such component.
    pub fn get_single(&self, type_id: u64) -> (r: Result<&V, FetchError>)
        requires
            self.wf(),
        ensures
            r is Ok <==> first_holder(self.layout(), type_id) is Some,
            r matches Ok(value) ==> *value == self.layout()[first_holder(
                self.layout(),
                type_id,
            )->0].row(0)[type_id],
    {
        match self.find_single(type_id) {
            Some((i, column)) => {
                let archetype = &self.archetypes[i];
                proof {
                    let content = self.layout()[i as int];
                    assert(content == archetype@);
                    assert(content.wf());
                    assert(content.columns[column as int].len() == content.entities.len());
                    assert(content.row_values(0)[column as int] == content.columns[column as int][0]);
                }
                let store = archetype.get(column);
                Ok(&store[0])
            },
            None => Err(FetchError),
        }
    }

    /// Query for a *mutable* reference to the first instance of a component
    /// found, as `get_single` finds it. Whatever is written through the
    /// reference becomes that component of the entity that owns the row;
    /// nothing else changes. Fails with `FetchError`, changing nothing, when
    /// the world holds no such component.
    pub fn get_single_mut(&mut self, type_id: u64) -> (r: Result<&mut V, FetchError>)
        requires
            old(self).wf(),
        ensures
            final(self).wf(),
            generations_advance(old(self).entities@, final(self).entities@),
            match r {
                Ok(value) => {
                    let layout = old(self).layout();
                    let i = first_holder(layout, type_id)->0;
                    let column = layout[i].types.index_of(type_id);
                    let owner = layout[i].entities[0];
                    let handle = Entity {
                        index: owner,
                        generation: old(self).entities@[owner as int].generation,
                    };
                    &&& first_holder(layout, type_id) is Some
                    &&& *value == layout[i].row(0)[type_id]
                    &&& old(self)@.contains_key(handle)
                    &&& final(self)@ == old(self)@.insert(
                        handle,
                        old(self)@[handle].insert(type_id, *final(value)),
                    )
                    &&& final(self).layout() == layout.update(
                        i,
                        layout[i].with_value(0, column, *final(value)),
                    )
                    &&& final(self).entities@ == old(self).entities@
                    &&& final(self).free_entities@ == old(self).free_entities@
                    &&& final(self).bundle_id_to_archetype@ == old(self).bundle_id_to_archetype@
                },
                Err(_) => {
                    &&& first_holder(old(self).layout(), type_id) is None
                    &&& *final(self) == *old(self)
                },
            },
    {
        match self.find_single(type_id) {
            Some((i, column)) => {
                let ghost layout = self.layout();
                let ghost content = layout[i as int];
                let ghost owner = content.entities[0];
                let ghost handle = Entity {
                    index: owner,
                    generation: self.entities@[owner as int].generation,
                };
                proof {
                    assert(content.wf());
                    assert(content.columns[column as int].len() == content.entities.len());
                    assert(content.row_values(0)[column as int] == content.columns[column as int][0]);
                    assert(owns(self.entities@, layout[i as int].entities[0], i as int, 0));
                    assert(live(self.entities@, handle));
                    assert forall|after: Archetype<V>| #[trigger]
                        layout_of(old(self).archetypes@.update(i as int, after)) == layout.update(
                            i as int,
                            after@,
                        ) by {
                        lemma_layout_of_update(old(self).archetypes@, i as int, after);
                    }
                }
                let archetype = &mut self.archetypes[i];
                let store = archetype.mutable_component_store(column);
                assert(store.len() == store@.len());
                let value = &mut store[0];
                proof {
                    lemma_replace_value(
                        layout,
                        old(self).entities@,
                        old(self).free_entities@,
                        handle,
                        column as int,
                        *final(value),
                    );
                    lemma_layout_update(
                        layout,
                        old(self).bundle_id_to_archetype@,
                        i as int,
                        content.with_value(0, column as int, *final(value)),
                    );
                }
                Ok(value)
            },
            None => Err(FetchError),
        }
    }
}

} // verus!
