//! Archetypes: the rows of all entities that have exactly one set of
//! component types, stored as parallel columns.

use vstd::prelude::*;
use crate::entity::EntityId;
use crate::error::EntityMissingComponent;
use crate::record::{lemma_ascending_index_of, record, strictly_ascending};
use crate::store::{swap_removed, ComponentStore};

verus! {

/// The mathematical content of an archetype.
#[verifier::ext_equal]
pub struct ArchetypeView<V> {
    /// Registry index of the entity that owns each row.
    pub entities: Seq<EntityId>,
    /// Component type of each column.
    pub types: Seq<u64>,
    /// The columns, in the order of `types`; each holds one value per row.
    pub columns: Seq<Seq<V>>,
}

impl<V> ArchetypeView<V> {
    /// Columns are ordered by ascending type identifier, without repetition,
    /// and every column has exactly one value for each row.
    pub open spec fn wf(self) -> bool {
        &&& strictly_ascending(self.types)
        &&& self.columns.len() == self.types.len()
        &&& forall|i: int|
            0 <= i < self.columns.len() ==> (#[trigger] self.columns[i]).len()
                == self.entities.len()
    }

    /// Number of rows.
    pub open spec fn rows(self) -> nat {
        self.entities.len()
    }

    /// The values of row `r`, in column order.
    pub open spec fn row_values(self, r: int) -> Seq<V> {
        Seq::new(self.columns.len(), |i: int| self.columns[i][r])
    }

    /// The components of row `r`, by type.
    pub open spec fn row(self, r: int) -> Map<u64, V> {
        record(self.types, self.row_values(r))
    }

    /// The archetype after row `r` has been swap-removed from the entity list
    /// and from every column.
    pub open spec fn without_row(self, r: int) -> ArchetypeView<V> {
        ArchetypeView {
            entities: swap_removed(self.entities, r),
            types: self.types,
            columns: Seq::new(self.columns.len(), |i: int| swap_removed(self.columns[i], r)),
        }
    }

    /// The archetype after a row for `entity` with `values` has been appended.
    pub open spec fn with_row(self, entity: EntityId, values: Seq<V>) -> ArchetypeView<V> {
        ArchetypeView {
            entities: self.entities.push(entity),
            types: self.types,
            columns: Seq::new(self.columns.len(), |i: int| self.columns[i].push(values[i])),
        }
    }

    /// The archetype after the value in row `r` of column `column` has been
    /// replaced by `value`.
    pub open spec fn with_value(self, r: int, column: int, value: V) -> ArchetypeView<V> {
        ArchetypeView {
            columns: self.columns.update(column, self.columns[column].update(r, value)),
            ..self
        }
    }

    /// An archetype with the given columns and no rows.
    pub open spec fn empty(types: Seq<u64>) -> ArchetypeView<V> {
        ArchetypeView {
            entities: Seq::empty(),
            types,
            columns: Seq::new(types.len(), |i: int| Seq::empty()),
        }
    }
}

/// Swap-removing row `r` keeps the archetype well formed; the last row is then
/// found at `r`, and every other row where it was.
pub proof fn lemma_without_row<V>(view: ArchetypeView<V>, r: int)
    requires
        view.wf(),
        0 <= r < view.rows(),
    ensures
        view.without_row(r).wf(),
        view.without_row(r).rows() == view.rows() - 1,
        forall|k: int|
            0 <= k < view.rows() - 1 ==> #[trigger] view.without_row(r).row(k) == view.row(
                if k == r {
                    view.rows() - 1
                } else {
                    k
                },
            ),
        forall|k: int|
            0 <= k < view.rows() - 1 ==> #[trigger] view.without_row(r).entities[k]
                == view.entities[if k == r {
                view.rows() - 1
            } else {
                k
            }],
{
    let after = view.without_row(r);
    assert forall|i: int| 0 <= i < after.columns.len() implies (#[trigger] after.columns[i]).len()
        == after.entities.len() by {
        assert(view.columns[i].len() == view.entities.len());
    }
    assert forall|k: int| 0 <= k < view.rows() - 1 implies #[trigger] after.row(k) == view.row(
        if k == r {
            view.rows() - 1
        } else {
            k
        },
    ) by {
        let k0 = if k == r {
            view.rows() - 1
        } else {
            k
        };
        assert forall|i: int| 0 <= i < view.columns.len() implies after.row_values(k)[i]
            == view.row_values(k0)[i] by {
            assert(view.columns[i].len() == view.entities.len());
        }
        assert(after.row_values(k) =~= view.row_values(k0));
    }
}

/// Appending a row keeps the archetype well formed; the new row holds the
/// given values, and every earlier row is as it was.
pub proof fn lemma_with_row<V>(view: ArchetypeView<V>, entity: EntityId, values: Seq<V>)
    requires
        view.wf(),
        values.len() == view.types.len(),
    ensures
        view.with_row(entity, values).wf(),
        view.with_row(entity, values).rows() == view.rows() + 1,
        view.with_row(entity, values).row(view.rows() as int) == record(view.types, values),
        forall|k: int|
            0 <= k < view.rows() ==> #[trigger] view.with_row(entity, values).row(k) == view.row(k),
{
    let after = view.with_row(entity, values);
    assert forall|i: int| 0 <= i < after.columns.len() implies (#[trigger] after.columns[i]).len()
        == after.entities.len() by {
        assert(view.columns[i].len() == view.entities.len());
    }
    assert forall|i: int| 0 <= i < view.columns.len() implies after.row_values(
        view.rows() as int,
    )[i] == values[i] by {
        assert(view.columns[i].len() == view.entities.len());
    }
    assert(after.row_values(view.rows() as int) =~= values);
    assert forall|k: int| 0 <= k < view.rows() implies #[trigger] after.row(k) == view.row(k) by {
        assert forall|i: int| 0 <= i < view.columns.len() implies after.row_values(k)[i]
            == view.row_values(k)[i] by {
            assert(view.columns[i].len() == view.entities.len());
        }
        assert(after.row_values(k) =~= view.row_values(k));
    }
}

/// Replacing the value of one component in one row changes that component of
/// that row and nothing else.
pub proof fn lemma_with_value<V>(view: ArchetypeView<V>, r: int, column: int, value: V)
    requires
        view.wf(),
        0 <= r < view.rows(),
        0 <= column < view.types.len(),
    ensures
        view.with_value(r, column, value).wf(),
        view.with_value(r, column, value).row(r) == view.row(r).insert(view.types[column], value),
        forall|k: int|
            0 <= k < view.rows() && k != r ==> #[trigger] view.with_value(r, column, value).row(k)
                == view.row(k),
{
    let after = view.with_value(r, column, value);
    assert forall|i: int| 0 <= i < after.columns.len() implies (#[trigger] after.columns[i]).len()
        == after.entities.len() by {
        assert(view.columns[i].len() == view.entities.len());
    }
    assert(view.columns[column].len() == view.entities.len());
    assert forall|k: int| 0 <= k < view.rows() && k != r implies #[trigger] after.row(k)
        == view.row(k) by {
        assert forall|i: int| 0 <= i < view.columns.len() implies after.row_values(k)[i]
            == view.row_values(k)[i] by {
            assert(view.columns[i].len() == view.entities.len());
        }
        assert(after.row_values(k) =~= view.row_values(k));
    }
    assert(after.row_values(r) =~= view.row_values(r).update(column, value));
    let lhs = after.row(r);
    let rhs = view.row(r).insert(view.types[column], value);
    assert forall|t: u64| lhs.contains_key(t) implies lhs[t] == rhs[t] by {
        let i = view.types.index_of(t);
        lemma_ascending_index_of(view.types, i);
        lemma_ascending_index_of(view.types, column);
    }
    assert forall|t: u64| lhs.contains_key(t) <==> rhs.contains_key(t) by {
        lemma_ascending_index_of(view.types, column);
    }
    assert(lhs =~= rhs);
}

/// Rows of entities that share one exact set of component types.
pub struct Archetype<V> {
    /// Owner of each row.
    pub entities: Vec<EntityId>,
    /// One column per component type, ordered by type identifier.
    pub components: Vec<ComponentStore<V>>,
}

impl<V> View for Archetype<V> {
    type V = ArchetypeView<V>;

    /// Owners, column types and column contents, as the vectors hold them.
    open spec fn view(&self) -> ArchetypeView<V> {
        ArchetypeView {
            entities: self.entities@,
            types: Seq::new(self.components@.len(), |i: int| self.components@[i].type_id),
            columns: Seq::new(self.components@.len(), |i: int| self.components@[i]@),
        }
    }
}

impl<V> Archetype<V> {
    /// An archetype with no columns and no rows.
    pub fn new() -> (a: Self)
        ensures
            a@ == ArchetypeView::<V>::empty(Seq::empty()),
    {
        let a = Archetype { entities: Vec::new(), components: Vec::new() };
        assert(a@.types =~= Seq::<u64>::empty());
        assert(a@.columns =~= Seq::new(0, |i: int| Seq::<V>::empty()));
        a
    }

    /// The column at position `index`.
    pub fn get(&self, index: usize) -> (column: &Vec<V>)
        requires
            index < self@.columns.len(),
        ensures
            column@ == self@.columns[index as int],
    {
        &self.components[index].data
    }

    /// Number of rows.
    pub fn len(&self) -> (n: usize)
        ensures
            n == self@.rows(),
    {
        self.entities.len()
    }

    /// Removes row `index` from the entity list and from every column. The
    /// last row takes its place; the entity that owned the last row is
    /// returned (the removed entity itself when `index` was the last row).
    pub fn remove_entity(&mut self, index: EntityId) -> (moved: EntityId)
        requires
            old(self)@.wf(),
            index < old(self)@.rows(),
        ensures
            final(self)@ == old(self)@.without_row(index as int),
            moved == old(self)@.entities.last(),
    {
        let n: usize = self.components.len();
        let mut i: usize = 0;
        while i < n
            invariant
                i <= n,
                n == self.components@.len(),
                old(self)@.wf(),
                index < old(self)@.rows(),
                self.entities@ == old(self).entities@,
                self@.types == old(self)@.types,
                forall|j: int|
                    0 <= j < i ==> #[trigger] self@.columns[j] == swap_removed(
                        old(self)@.columns[j],
                        index as int,
                    ),
                forall|j: int| i <= j < n ==> #[trigger] self@.columns[j] == old(self)@.columns[j],
            decreases n - i,
        {
            let ghost before = self@;
            assert(before.columns[i as int].len() == old(self)@.entities.len());
            let _ = self.components[i].swap_remove(index);
            assert(self@.types =~= before.types);
            assert forall|j: int| 0 <= j < n && j != i implies #[trigger] self@.columns[j]
                == before.columns[j] by {}
            i = i + 1;
        }
        assert(self.entities.len() == self.entities@.len());
        let last: usize = self.entities.len() - 1;
        let moved = self.entities[last];
        let ghost columns = self@.columns;
        let _ = self.entities.swap_remove(index as usize);
        assert(self@.columns =~= columns);
        assert(columns =~= old(self)@.without_row(index as int).columns);
        moved
    }

    /// Mutable access to the column at position `component_index`.
    pub fn mutable_component_store(&mut self, component_index: usize) -> (column: &mut Vec<V>)
        requires
            component_index < old(self)@.columns.len(),
        ensures
            column@ == old(self)@.columns[component_index as int],
            final(self)@ == (ArchetypeView {
                columns: old(self)@.columns.update(component_index as int, final(column)@),
                ..old(self)@
            }),
    {
        &mut self.components[component_index].data
    }

    /// Overwrites the value at row `index` of the column at `component_index`.
    pub fn replace_component(&mut self, component_index: usize, index: EntityId, t: V)
        requires
            component_index < old(self)@.columns.len(),
            index < old(self)@.columns[component_index as int].len(),
        ensures
            final(self)@ == old(self)@.with_value(index as int, component_index as int, t),
    {
        let column = self.mutable_component_store(component_index);
        assert(column.len() == column@.len());
        column[index as usize] = t;
    }

    /// Appends a value to the column at `component_index`.
    pub fn push(&mut self, component_index: usize, t: V)
        requires
            component_index < old(self)@.columns.len(),
        ensures
            final(self)@ == (ArchetypeView {
                columns: old(self)@.columns.update(
                    component_index as int,
                    old(self)@.columns[component_index as int].push(t),
                ),
                ..old(self)@
            }),
    {
        self.mutable_component_store(component_index).push(t)
    }

    /// Finds the column of `type_id` among the sorted columns: `Ok` with its
    /// position, or `Err` with the position at which such a column would have
    /// to be inserted to keep the order.
    pub fn search_type(&self, type_id: u64) -> (r: Result<usize, usize>)
        requires
            strictly_ascending(self@.types),
        ensures
            match r {
                Ok(i) => i < self@.types.len() && self@.types[i as int] == type_id,
                Err(i) => {
                    &&& i <= self@.types.len()
                    &&& !self@.types.contains(type_id)
                    &&& forall|j: int| 0 <= j < i ==> self@.types[j] < type_id
                    &&& forall|j: int| i <= j < self@.types.len() ==> self@.types[j] > type_id
                },
            },
    {
        let mut low: usize = 0;
        let mut high: usize = self.components.len();
        while low < high
            invariant
                low <= high <= self@.types.len(),
                self@.types.len() == self.components@.len(),
                strictly_ascending(self@.types),
                forall|j: int| 0 <= j < low ==> self@.types[j] < type_id,
                forall|j: int| high <= j < self@.types.len() ==> self@.types[j] > type_id,
            decreases high - low,
        {
            let mid: usize = low + (high - low) / 2;
            let found: u64 = self.components[mid].type_id;
            assert(found == self@.types[mid as int]);
            if found == type_id {
                return Ok(mid);
            } else if found < type_id {
                assert forall|j: int| 0 <= j < mid + 1 implies self@.types[j] < type_id by {
                    if j < mid {
                        assert(self@.types[j] < self@.types[mid as int]);
                    }
                }
                low = mid + 1;
            } else {
                assert forall|j: int| mid <= j < self@.types.len() implies self@.types[j]
                    > type_id by {
                    if mid < j {
                        assert(self@.types[mid as int] < self@.types[j]);
                    }
                }
                high = mid;
            }
        }
        Err(low)
    }

    /// Mutable access to the component of type `type_id` in row `index`, or an
    /// error naming the row's entity when the archetype has no such column.
    pub fn get_component_mut(&mut self, index: EntityId, type_id: u64) -> (r: Result<
        &mut V,
        EntityMissingComponent,
    >)
        requires
            old(self)@.wf(),
            index < old(self)@.rows(),
        ensures
            match r {
                Ok(value) => {
                    let column = old(self)@.types.index_of(type_id);
                    &&& old(self)@.types.contains(type_id)
                    &&& *value == old(self)@.row(index as int)[type_id]
                    &&& final(self)@ == (ArchetypeView {
                        columns: old(self)@.columns.update(
                            column,
                            old(self)@.columns[column].update(index as int, *final(value)),
                        ),
                        ..old(self)@
                    })
                },
                Err(e) => {
                    &&& !old(self)@.types.contains(type_id)
                    &&& e.entity == old(self)@.entities[index as int]
                    &&& e.type_id == type_id
                    &&& *final(self) == *old(self)
                },
            },
    {
        let n: usize = self.components.len();
        let mut i: usize = 0;
        while i < n
            invariant
                i <= n,
                n == self.components@.len(),
                *self == *old(self),
                old(self)@.wf(),
                index < old(self)@.rows(),
                forall|j: int| 0 <= j < i ==> self@.types[j] != type_id,
            decreases n - i,
        {
            if self.components[i].type_id == type_id {
                proof {
                    assert(self@.types[i as int] == type_id);
                    lemma_ascending_index_of(self@.types, i as int);
                    assert(self@.columns[i as int].len() == self@.entities.len());
                }
                let column = &mut self.components[i].data;
                assert(column.len() == column@.len());
                return Ok(&mut column[index as usize]);
            }
            i = i + 1;
        }
        assert(self.entities.len() == self.entities@.len());
        Err(EntityMissingComponent::new(self.entities[index as usize], type_id))
    }

    /// Moves the value at row `entity_index` of column `component_index` to the
    /// end of column `other_index` of `other_archetype`; the last value of the
    /// source column takes its place. The two columns must hold the same
    /// component type.
    pub fn migrate_component(
        &mut self,
        component_index: usize,
        entity_index: EntityId,
        other_archetype: &mut Archetype<V>,
        other_index: usize,
    )
        requires
            component_index < old(self)@.columns.len(),
            other_index < old(other_archetype)@.columns.len(),
            entity_index < old(self)@.columns[component_index as int].len(),
            old(self)@.types[component_index as int] == old(other_archetype)@.types[other_index as int],
        ensures
            final(self)@ == (ArchetypeView {
                columns: old(self)@.columns.update(
                    component_index as int,
                    swap_removed(old(self)@.columns[component_index as int], entity_index as int),
                ),
                ..old(self)@
            }),
            final(other_archetype)@ == (ArchetypeView {
                columns: old(other_archetype)@.columns.update(
                    other_index as int,
                    old(other_archetype)@.columns[other_index as int].push(
                        old(self)@.columns[component_index as int][entity_index as int],
                    ),
                ),
                ..old(other_archetype)@
            }),
    {
        self.components[component_index].migrate(
            entity_index,
            &mut other_archetype.components[other_index],
        );
    }

    /// The type identifiers of the columns, in column order.
    pub fn type_ids(&self) -> (types: Vec<u64>)
        ensures
            types@ == self@.types,
    {
        let n: usize = self.components.len();
        let mut types: Vec<u64> = Vec::new();
        let mut i: usize = 0;
        while i < n
            invariant
                i <= n,
                n == self.components@.len(),
                types@ == self@.types.take(i as int),
            decreases n - i,
        {
            types.push(self.components[i].type_id);
            assert(types@ =~= self@.types.take(i + 1));
            i = i + 1;
        }
        assert(self@.types.take(n as int) =~= self@.types);
        types
    }

    /// Tells whether the columns are exactly of the given types, in order.
    pub fn has_types(&self, types: &Vec<u64>) -> (b: bool)
        ensures
            b == (self@.types == types@),
    {
        let n: usize = self.components.len();
        if types.len() != n {
            return false;
        }
        let mut i: usize = 0;
        while i < n
            invariant
                i <= n,
                n == self.components@.len(),
                n == types@.len(),
                forall|j: int| 0 <= j < i ==> self@.types[j] == types@[j],
            decreases n - i,
        {
            if self.components[i].type_id != types[i] {
                assert(self@.types[i as int] != types@[i as int]);
                return false;
            }
            i = i + 1;
        }
        assert(self@.types =~= types@);
        true
    }

    /// An archetype without rows whose columns mirror those of `self`, with a
    /// column for `type_id` inserted at position `insert_index`.
    pub fn new_with_component(&self, insert_index: usize, type_id: u64) -> (a: Archetype<V>)
        requires
            insert_index <= self@.types.len(),
        ensures
            a@ == ArchetypeView::<V>::empty(self@.types.insert(insert_index as int, type_id)),
    {
        let n: usize = self.components.len();
        let mut archetype: Archetype<V> = Archetype::new();
        let mut i: usize = 0;
        while i < n
            invariant
                i <= n,
                n == self.components@.len(),
                archetype.entities@.len() == 0,
                archetype.components@.len() == i,
                forall|j: int|
                    0 <= j < i ==> (#[trigger] archetype.components@[j]).type_id
                        == self.components@[j].type_id && archetype.components@[j]@ == Seq::<
                        V,
                    >::empty(),
            decreases n - i,
        {
            archetype.components.push(self.components[i].new_same_type());
            i = i + 1;
        }
        archetype.components.insert(insert_index, ComponentStore::new(type_id));
        let ghost expected = ArchetypeView::<V>::empty(
            self@.types.insert(insert_index as int, type_id),
        );
        assert(archetype@.entities =~= expected.entities);
        assert(archetype@.types =~= expected.types);
        assert(archetype@.columns =~= expected.columns);
        archetype
    }

    /// An archetype without rows whose columns mirror those of `self`, but
    /// for the column at position `remove_index`.
    pub fn new_without_component(&self, remove_index: usize) -> (a: Archetype<V>)
        requires
            remove_index < self@.types.len(),
        ensures
            a@ == ArchetypeView::<V>::empty(self@.types.remove(remove_index as int)),
    {
        let n: usize = self.components.len();
        let mut archetype: Archetype<V> = Archetype::new();
        let mut i: usize = 0;
        while i < n
            invariant
                i <= n,
                n == self.components@.len(),
                remove_index < n,
                archetype.entities@.len() == 0,
                archetype.components@.len() == if i <= remove_index {
                    i as int
                } else {
                    i - 1
                },
                forall|j: int|
                    0 <= j < archetype.components@.len() ==> (
                    #[trigger] archetype.components@[j]).type_id == self.components@[if j
                        < remove_index {
                        j
                    } else {
                        j + 1
                    }].type_id && archetype.components@[j]@ == Seq::<V>::empty(),
            decreases n - i,
        {
            if i != remove_index {
                archetype.components.push(self.components[i].new_same_type());
            }
            i = i + 1;
        }
        let ghost expected = ArchetypeView::<V>::empty(self@.types.remove(remove_index as int));
        assert(archetype@.entities =~= expected.entities);
        assert(archetype@.types =~= expected.types);
        assert(archetype@.columns =~= expected.columns);
        archetype
    }

    /// Moves the values at row `entity_index` of the columns `start..end` to
    /// the ends of the columns of `other_archetype` that begin at
    /// `other_start`, column by column; in each source column the last value
    /// takes the vacated place. Each pair of columns must hold the same
    /// component type.
    pub fn migrate_components(
        &mut self,
        start: usize,
        end: usize,
        entity_index: EntityId,
        other_archetype: &mut Archetype<V>,
        other_start: usize,
    )
        requires
            start <= end <= old(self)@.columns.len(),
            other_start + (end - start) <= old(other_archetype)@.columns.len(),
            forall|i: int|
                start <= i < end ==> entity_index < (#[trigger] old(self)@.columns[i]).len(),
            forall|i: int|
                start <= i < end ==> (#[trigger] old(self)@.types[i]) == old(
                    other_archetype,
                )@.types[other_start + i - start],
        ensures
            final(self)@ == (ArchetypeView {
                columns: Seq::new(
                    old(self)@.columns.len(),
                    |i: int|
                        if start <= i < end {
                            swap_removed(old(self)@.columns[i], entity_index as int)
                        } else {
                            old(self)@.columns[i]
                        },
                ),
                ..old(self)@
            }),
            final(other_archetype)@ == (ArchetypeView {
                columns: Seq::new(
                    old(other_archetype)@.columns.len(),
                    |j: int|
                        if other_start <= j < other_start + (end - start) {
                            old(other_archetype)@.columns[j].push(
                                old(self)@.columns[j - other_start + start][entity_index as int],
                            )
                        } else {
                            old(other_archetype)@.columns[j]
                        },
                ),
                ..old(other_archetype)@
            }),
    {
        let width: usize = other_archetype.components.len();
        let mut i: usize = start;
        while i < end
            invariant
                start <= i <= end,
                end <= old(self)@.columns.len(),
                width == old(other_archetype)@.columns.len(),
                other_start + (end - start) <= old(other_archetype)@.columns.len(),
                forall|k: int|
                    start <= k < end ==> entity_index < (#[trigger] old(self)@.columns[k]).len(),
                forall|k: int|
                    start <= k < end ==> (#[trigger] old(self)@.types[k]) == old(
                        other_archetype,
                    )@.types[other_start + k - start],
                self@ == (ArchetypeView {
                    columns: Seq::new(
                        old(self)@.columns.len(),
                        |k: int|
                            if start <= k < i {
                                swap_removed(old(self)@.columns[k], entity_index as int)
                            } else {
                                old(self)@.columns[k]
                            },
                    ),
                    ..old(self)@
                }),
                other_archetype@ == (ArchetypeView {
                    columns: Seq::new(
                        old(other_archetype)@.columns.len(),
                        |j: int|
                            if other_start <= j < other_start + (i - start) {
                                old(other_archetype)@.columns[j].push(
                                    old(self)@.columns[j - other_start + start][entity_index as int],
                                )
                            } else {
                                old(other_archetype)@.columns[j]
                            },
                    ),
                    ..old(other_archetype)@
                }),
            decreases end - i,
        {
            assert(self@.columns[i as int] == old(self)@.columns[i as int]);
            assert(self@.types[i as int] == old(self)@.types[i as int]);
            assert(other_archetype@.columns[other_start + i - start] == old(
                other_archetype,
            )@.columns[other_start + i - start]);
            self.migrate_component(i, entity_index, other_archetype, other_start + (i - start));
            i = i + 1;
        }
    }
}

} // verus!
