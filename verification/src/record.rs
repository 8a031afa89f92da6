//! Canonical type sequences and the records (type to value) that a row of an
//! archetype stands for.

use vstd::prelude::*;

verus! {

/// Every element is smaller than the ones after it.
pub open spec fn strictly_ascending(s: Seq<u64>) -> bool {
    forall|i: int, j: int| 0 <= i < j < s.len() ==> s[i] < s[j]
}

/// The canonical order of a finite set of type identifiers: the one strictly
/// ascending sequence that holds exactly the members of the set.
pub open spec fn canonical(types: Set<u64>) -> Seq<u64> {
    choose|s: Seq<u64>| strictly_ascending(s) && s.to_set() == types
}

/// The components of one row: each type in `types` mapped to the value that
/// stands at its position in `values`.
pub open spec fn record<V>(types: Seq<u64>, values: Seq<V>) -> Map<u64, V> {
    Map::new(|t: u64| types.contains(t), |t: u64| values[types.index_of(t)])
}

/// The values of a record, listed in the order of `types`.
pub open spec fn values_in_order<V>(types: Seq<u64>, components: Map<u64, V>) -> Seq<V> {
    Seq::new(types.len(), |i: int| components[types[i]])
}

/// In an ascending sequence every element is found at its own position.
pub proof fn lemma_ascending_index_of(types: Seq<u64>, i: int)
    requires
        strictly_ascending(types),
        0 <= i < types.len(),
    ensures
        types.contains(types[i]),
        types.index_of(types[i]) == i,
{
    let j = types.index_of(types[i]);
    assert(0 <= j < types.len() && types[j] == types[i]);
    if j < i {
        assert(types[j] < types[i]);
    } else if i < j {
        assert(types[i] < types[j]);
    }
}

/// Two ascending sequences with the same members are the same sequence.
pub proof fn lemma_ascending_unique(a: Seq<u64>, b: Seq<u64>)
    requires
        strictly_ascending(a),
        strictly_ascending(b),
        a.to_set() == b.to_set(),
    ensures
        a == b,
    decreases a.len(),
{
    if a.len() == 0 {
        if b.len() > 0 {
            assert(b.to_set().contains(b[0]));
            assert(a.contains(b[0]));
        }
        assert(a =~= b);
    } else {
        let x = a.last();
        assert(a.to_set().contains(x));
        assert(b.contains(x));
        let k = b.index_of(x);
        // x is the greatest member, so it stands last in b as well
        if k < b.len() - 1 {
            let y = b.last();
            assert(b[k] < y);
            assert(b.to_set().contains(y));
            assert(a.contains(y));
            let m = a.index_of(y);
            if m < a.len() - 1 {
                assert(a[m] < a.last());
            }
        }
        assert(b.last() == x);
        let a0 = a.drop_last();
        let b0 = b.drop_last();
        assert forall|t: u64| a0.to_set().contains(t) <==> b0.to_set().contains(t) by {
            if a0.contains(t) {
                let i = a0.index_of(t);
                assert(a[i] == t);
                assert(a[i] < a.last());
                assert(a.to_set().contains(t));
                assert(b.contains(t));
                let j = b.index_of(t);
                assert(j < b.len() - 1);
                assert(b0[j] == t);
            }
            if b0.contains(t) {
                let i = b0.index_of(t);
                assert(b[i] == t);
                assert(b[i] < b.last());
                assert(b.to_set().contains(t));
                assert(a.contains(t));
                let j = a.index_of(t);
                assert(j < a.len() - 1);
                assert(a0[j] == t);
            }
        }
        assert(a0.to_set() =~= b0.to_set());
        lemma_ascending_unique(a0, b0);
        assert(a =~= a0.push(x));
        assert(b =~= b0.push(x));
    }
}

/// An ascending sequence is the canonical order of its own members.
pub proof fn lemma_canonical_of_ascending(types: Seq<u64>)
    requires
        strictly_ascending(types),
    ensures
        canonical(types.to_set()) == types,
{
    let c = canonical(types.to_set());
    assert(strictly_ascending(c) && c.to_set() == types.to_set());
    lemma_ascending_unique(c, types);
}

/// Reading a record back in the order of its types gives the values it was
/// made of.
pub proof fn lemma_values_of_record<V>(types: Seq<u64>, values: Seq<V>)
    requires
        strictly_ascending(types),
        values.len() == types.len(),
    ensures
        values_in_order(types, record(types, values)) == values,
        record(types, values).dom() == types.to_set(),
{
    assert forall|i: int| 0 <= i < types.len() implies values_in_order(
        types,
        record(types, values),
    )[i] == values[i] by {
        lemma_ascending_index_of(types, i);
    }
    assert(values_in_order(types, record(types, values)) =~= values);
    assert(record(types, values).dom() =~= types.to_set());
}

/// A record over exactly the members of `types` is rebuilt from its values in
/// the order of `types`.
pub proof fn lemma_record_of_values<V>(types: Seq<u64>, components: Map<u64, V>)
    requires
        strictly_ascending(types),
        components.dom() == types.to_set(),
    ensures
        record(types, values_in_order(types, components)) == components,
{
    let r = record(types, values_in_order(types, components));
    assert forall|t: u64| r.contains_key(t) implies r[t] == components[t] by {
        let i = types.index_of(t);
        assert(types[i] == t);
    }
    assert forall|t: u64| r.contains_key(t) <==> components.contains_key(t) by {
        assert(types.to_set().contains(t) <==> types.contains(t));
    }
    assert(r =~= components);
}

/// Inserting a new type with its value at the matching position adds exactly
/// that component to the record.
pub proof fn lemma_record_insert<V>(types: Seq<u64>, values: Seq<V>, k: int, t: u64, v: V)
    requires
        0 <= k <= types.len(),
        values.len() == types.len(),
        strictly_ascending(types.insert(k, t)),
    ensures
        strictly_ascending(types),
        !types.contains(t),
        record(types.insert(k, t), values.insert(k, v)) == record(types, values).insert(t, v),
{
    let types2 = types.insert(k, t);
    let values2 = values.insert(k, v);
    assert forall|i: int, j: int| 0 <= i < j < types.len() implies types[i] < types[j] by {
        let i2 = if i < k { i } else { i + 1 };
        let j2 = if j < k { j } else { j + 1 };
        assert(types2[i2] == types[i]);
        assert(types2[j2] == types[j]);
    }
    assert(types2[k] == t);
    if types.contains(t) {
        let i = types.index_of(t);
        let i2 = if i < k { i } else { i + 1 };
        assert(types2[i2] == t);
        if i2 < k {
            assert(types2[i2] < types2[k]);
        } else {
            assert(types2[k] < types2[i2]);
        }
    }
    let lhs = record(types2, values2);
    let rhs = record(types, values).insert(t, v);
    assert forall|x: u64| lhs.contains_key(x) <==> rhs.contains_key(x) by {
        if types2.contains(x) {
            let i2 = types2.index_of(x);
            if i2 != k {
                let i = if i2 < k { i2 } else { i2 - 1 };
                assert(types[i] == x);
            }
        }
        if types.contains(x) {
            let i = types.index_of(x);
            let i2 = if i < k { i } else { i + 1 };
            assert(types2[i2] == x);
        }
    }
    assert forall|x: u64| lhs.contains_key(x) implies lhs[x] == rhs[x] by {
        let i2 = types2.index_of(x);
        lemma_ascending_index_of(types2, i2);
        if i2 == k {
            assert(values2[k] == v);
        } else {
            let i = if i2 < k { i2 } else { i2 - 1 };
            assert(types[i] == x);
            lemma_ascending_index_of(types, i);
            assert(values2[i2] == values[i]);
        }
    }
    assert(lhs =~= rhs);
}

/// Removing a type together with its value removes exactly that component
/// from the record.
pub proof fn lemma_record_remove<V>(types: Seq<u64>, values: Seq<V>, k: int)
    requires
        0 <= k < types.len(),
        values.len() == types.len(),
        strictly_ascending(types),
    ensures
        strictly_ascending(types.remove(k)),
        record(types.remove(k), values.remove(k)) == record(types, values).remove(types[k]),
{
    let types2 = types.remove(k);
    let values2 = values.remove(k);
    assert forall|i: int, j: int| 0 <= i < j < types2.len() implies types2[i] < types2[j] by {
        let i1 = if i < k { i } else { i + 1 };
        let j1 = if j < k { j } else { j + 1 };
        assert(types[i1] < types[j1]);
    }
    let lhs = record(types2, values2);
    let rhs = record(types, values).remove(types[k]);
    assert forall|x: u64| lhs.contains_key(x) <==> rhs.contains_key(x) by {
        if types2.contains(x) {
            let i2 = types2.index_of(x);
            let i = if i2 < k { i2 } else { i2 + 1 };
            assert(types[i] == x);
            if i < k {
                assert(types[i] < types[k]);
            } else {
                assert(types[k] < types[i]);
            }
        }
        if types.contains(x) && x != types[k] {
            let i = types.index_of(x);
            let i2 = if i < k { i } else { i - 1 };
            assert(types2[i2] == x);
        }
    }
    assert forall|x: u64| lhs.contains_key(x) implies lhs[x] == rhs[x] by {
        let i2 = types2.index_of(x);
        lemma_ascending_index_of(types2, i2);
        let i = if i2 < k { i2 } else { i2 + 1 };
        assert(types[i] == x);
        lemma_ascending_index_of(types, i);
        assert(values2[i2] == values[i]);
    }
    assert(lhs =~= rhs);
}

/// Inserting a type between the smaller and the greater ones keeps the
/// sequence ascending.
pub proof fn lemma_insert_ascending(types: Seq<u64>, k: int, t: u64)
    requires
        strictly_ascending(types),
        0 <= k <= types.len(),
        forall|j: int| 0 <= j < k ==> types[j] < t,
        forall|j: int| k <= j < types.len() ==> types[j] > t,
    ensures
        strictly_ascending(types.insert(k, t)),
{
    let after = types.insert(k, t);
    assert forall|i: int, j: int| 0 <= i < j < after.len() implies after[i] < after[j] by {
        if i < k && j > k {
            assert(types[i] < types[j - 1]);
        } else if i > k {
            assert(types[i - 1] < types[j - 1]);
        } else if j < k {
            assert(types[i] < types[j]);
        }
    }
}

/// The members of a sequence with one element inserted.
pub proof fn lemma_insert_to_set(types: Seq<u64>, k: int, t: u64)
    requires
        0 <= k <= types.len(),
    ensures
        types.insert(k, t).to_set() == types.to_set().insert(t),
{
    let after = types.insert(k, t);
    assert forall|x: u64| after.to_set().contains(x) <==> types.to_set().insert(t).contains(
        x,
    ) by {
        if after.contains(x) {
            let i = after.index_of(x);
            if i < k {
                assert(types[i] == x);
            } else if i > k {
                assert(types[i - 1] == x);
            }
        }
        if types.contains(x) {
            let i = types.index_of(x);
            let i2 = if i < k {
                i
            } else {
                i + 1
            };
            assert(after[i2] == x);
        }
        assert(after[k] == t);
    }
    assert(after.to_set() =~= types.to_set().insert(t));
}

/// The members of an ascending sequence with one element removed.
pub proof fn lemma_remove_to_set(types: Seq<u64>, k: int)
    requires
        strictly_ascending(types),
        0 <= k < types.len(),
    ensures
        types.remove(k).to_set() == types.to_set().remove(types[k]),
{
    let after = types.remove(k);
    assert forall|x: u64| after.to_set().contains(x) <==> types.to_set().remove(
        types[k],
    ).contains(x) by {
        if after.contains(x) {
            let i = after.index_of(x);
            let i0 = if i < k {
                i
            } else {
                i + 1
            };
            assert(types[i0] == x);
            if i0 < k {
                assert(types[i0] < types[k]);
            } else {
                assert(types[k] < types[i0]);
            }
        }
        if types.contains(x) && x != types[k] {
            let i = types.index_of(x);
            let i2 = if i < k {
                i
            } else {
                i - 1
            };
            assert(after[i2] == x);
        }
    }
    assert(after.to_set() =~= types.to_set().remove(types[k]));
}

/// How many elements of `types` are smaller than `t`.
pub open spec fn rank(types: Seq<u64>, t: u64) -> int
    decreases types.len(),
{
    if types.len() == 0 {
        0
    } else {
        rank(types.drop_last(), t) + if types.last() < t {
            1int
        } else {
            0int
        }
    }
}

/// In an ascending sequence the elements smaller than `t` are exactly the
/// first `rank(types, t)` ones.
pub proof fn lemma_rank(types: Seq<u64>, t: u64)
    requires
        strictly_ascending(types),
    ensures
        0 <= rank(types, t) <= types.len(),
        forall|j: int| 0 <= j < rank(types, t) ==> types[j] < t,
        forall|j: int| rank(types, t) <= j < types.len() ==> types[j] >= t,
    decreases types.len(),
{
    if types.len() > 0 {
        let front = types.drop_last();
        lemma_rank(front, t);
        if types.last() < t {
            assert forall|j: int| 0 <= j < rank(types, t) implies types[j] < t by {
                if j < front.len() {
                    assert(types[j] < types[types.len() - 1]);
                }
            }
            assert(rank(front, t) == front.len()) by {
                if rank(front, t) < front.len() {
                    assert(front[rank(front, t)] >= t);
                    assert(types[rank(front, t)] < types[types.len() - 1]);
                }
            }
        } else {
            assert forall|j: int| 0 <= j < rank(types, t) implies types[j] < t by {
                assert(front[j] < t);
            }
            assert forall|j: int| rank(types, t) <= j < types.len() implies types[j] >= t by {
                if j < front.len() {
                    assert(front[j] >= t);
                }
            }
        }
    }
}

/// The members of any sequence of type identifiers have a canonical order.
pub proof fn lemma_canonical_exists(types: Seq<u64>)
    ensures
        strictly_ascending(canonical(types.to_set())),
        canonical(types.to_set()).to_set() == types.to_set(),
    decreases types.len(),
{
    if types.len() == 0 {
        let witness = Seq::<u64>::empty();
        assert(witness.to_set() =~= types.to_set());
        assert(strictly_ascending(witness) && witness.to_set() == types.to_set());
    } else {
        let front = types.drop_last();
        let x = types.last();
        lemma_canonical_exists(front);
        let c = canonical(front.to_set());
        assert(types.to_set() =~= front.to_set().insert(x)) by {
            assert forall|y: u64| types.to_set().contains(y) <==> front.to_set().insert(
                x,
            ).contains(y) by {
                if types.contains(y) {
                    let i = types.index_of(y);
                    if i < front.len() {
                        assert(front[i] == y);
                    }
                }
                if front.contains(y) {
                    let i = front.index_of(y);
                    assert(types[i] == y);
                }
                assert(types[types.len() - 1] == x);
            }
        }
        if c.contains(x) {
            assert(c.to_set() =~= types.to_set());
            assert(strictly_ascending(c) && c.to_set() == types.to_set());
        } else {
            let k = rank(c, x);
            lemma_rank(c, x);
            assert forall|j: int| k <= j < c.len() implies c[j] > x by {
                assert(c[j] >= x);
                assert(c.contains(c[j]));
            }
            lemma_insert_ascending(c, k, x);
            lemma_insert_to_set(c, k, x);
            let witness = c.insert(k, x);
            assert(strictly_ascending(witness) && witness.to_set() == types.to_set());
        }
    }
}

} // verus!
