//! Sparse arrays and sparse sets keyed by dense integer indices.

use vstd::prelude::*;

verus! {

/// An array with holes: slot `k` is either empty or holds one value.
/// Lookups are a single bounds check and index.
pub struct SparseArray<V> {
    values: Vec<Option<V>>,
}

impl<V> SparseArray<V> {
    /// The occupied slots and what they hold.
    pub closed spec fn view(&self) -> Map<usize, V> {
        Map::new(
            |k: usize| k < self.values@.len() && self.values@[k as int] is Some,
            |k: usize| self.values@[k as int]->0,
        )
    }

    pub fn new() -> (a: Self)
        ensures
            a@ == Map::<usize, V>::empty(),
    {
        let a = SparseArray { values: Vec::new() };
        assert(a@ =~= Map::<usize, V>::empty());
        a
    }

    pub fn contains(&self, index: usize) -> (b: bool)
        ensures
            b == self@.contains_key(index),
    {
        index < self.values.len() && self.values[index].is_some()
    }

    /// The value in slot `index`, if the slot is occupied.
    pub fn get(&self, index: usize) -> (r: Option<&V>)
        ensures
            match r {
                Some(v) => self@.contains_key(index) && *v == self@[index],
                None => !self@.contains_key(index),
            },
    {
        if index < self.values.len() {
            self.values[index].as_ref()
        } else {
            None
        }
    }

    /// Fills slot `index` with `value`, replacing what was there.
    pub fn insert(&mut self, index: usize, value: V)
        ensures
            final(self)@ == old(self)@.insert(index, value),
    {
        while self.values.len() <= index
            invariant
                self@ == old(self)@,
            decreases index + 1 - self.values.len(),
        {
            let ghost before = self@;
            self.values.push(None);
            assert(self@ =~= before);
        }
        let ghost before = self@;
        self.values[index] = Some(value);
        assert(self@ =~= before.insert(index, value));
    }

    /// Empties slot `index` and returns what it held.
    pub fn remove(&mut self, index: usize) -> (r: Option<V>)
        ensures
            final(self)@ == old(self)@.remove(index),
            match r {
                Some(v) => old(self)@.contains_key(index) && v == old(self)@[index],
                None => !old(self)@.contains_key(index),
            },
    {
        if index < self.values.len() {
            let ghost before = self@;
            let mut slot: Option<V> = None;
            core::mem::swap(&mut self.values[index], &mut slot);
            assert(self@ =~= before.remove(index));
            slot
        } else {
            assert(self@ =~= self@.remove(index));
            None
        }
    }
}

/// A set of values keyed by index that keeps its values densely packed, in
/// insertion order, and finds a key in constant time.
pub struct SparseSet<V> {
    dense: Vec<V>,
    indices: Vec<usize>,
    sparse: SparseArray<usize>,
}

impl<V> SparseSet<V> {
    /// The keys, in insertion order.
    pub closed spec fn keys(&self) -> Seq<usize> {
        self.indices@
    }

    /// The values, in insertion order of their keys.
    pub closed spec fn values(&self) -> Seq<V> {
        self.dense@
    }

    /// Where each key sits in `keys()`.
    pub closed spec fn slots(&self) -> Map<usize, usize> {
        self.sparse@
    }

    /// Keys and values line up, and `slots()` is the inverse of `keys()`.
    pub open spec fn wf(&self) -> bool {
        &&& self.keys().len() == self.values().len()
        &&& forall|i: int|
            0 <= i < self.keys().len() ==> self.slots().contains_key(#[trigger] self.keys()[i])
                && self.slots()[self.keys()[i]] == i
        &&& forall|k: usize| #[trigger]
            self.slots().contains_key(k) ==> self.slots()[k] < self.keys().len()
                && self.keys()[self.slots()[k] as int] == k
    }

    /// The set as a map from key to value.
    pub open spec fn view(&self) -> Map<usize, V> {
        Map::new(
            |k: usize| self.slots().contains_key(k),
            |k: usize| self.values()[self.slots()[k] as int],
        )
    }

    /// In a well-formed set no key occurs twice, and a key is in the map
    /// exactly when it is in `keys()`.
    pub proof fn lemma_keys(&self)
        requires
            self.wf(),
        ensures
            self.keys().no_duplicates(),
            forall|k: usize| self@.contains_key(k) <==> self.keys().contains(k),
            forall|i: int|
                0 <= i < self.keys().len() ==> self@.contains_key(#[trigger] self.keys()[i])
                    && self@[self.keys()[i]] == self.values()[i],
    {
        assert forall|k: usize| self@.contains_key(k) implies self.keys().contains(k) by {
            assert(self.keys()[self.slots()[k] as int] == k);
        }
    }

    pub fn new() -> (s: Self)
        ensures
            s.wf(),
            s.keys() == Seq::<usize>::empty(),
            s.values() == Seq::<V>::empty(),
            s@ == Map::<usize, V>::empty(),
    {
        let s = SparseSet { dense: Vec::new(), indices: Vec::new(), sparse: SparseArray::new() };
        assert(s@ =~= Map::<usize, V>::empty());
        s
    }

    pub fn with_capacity(capacity: usize) -> (s: Self)
        ensures
            s.wf(),
            s.keys() == Seq::<usize>::empty(),
            s.values() == Seq::<V>::empty(),
            s@ == Map::<usize, V>::empty(),
    {
        let s = SparseSet {
            dense: Vec::with_capacity(capacity),
            indices: Vec::with_capacity(capacity),
            sparse: SparseArray::new(),
        };
        assert(s@ =~= Map::<usize, V>::empty());
        s
    }

    pub fn len(&self) -> (n: usize)
        requires
            self.wf(),
        ensures
            n == self.keys().len(),
    {
        self.dense.len()
    }

    pub fn is_empty(&self) -> (b: bool)
        requires
            self.wf(),
        ensures
            b == (self.keys().len() == 0),
    {
        self.dense.len() == 0
    }

    pub fn contains(&self, index: usize) -> (b: bool)
        ensures
            b == self@.contains_key(index),
    {
        self.sparse.contains(index)
    }

    /// The value stored under `index`, if any.
    pub fn get(&self, index: usize) -> (r: Option<&V>)
        requires
            self.wf(),
        ensures
            match r {
                Some(v) => self@.contains_key(index) && *v == self@[index],
                None => !self@.contains_key(index),
            },
    {
        match self.sparse.get(index) {
            Some(slot) => {
                assert(self.slots().contains_key(index));
                Some(&self.dense[*slot])
            },
            None => None,
        }
    }

    /// The key at position `i` of the insertion order.
    pub fn key_at(&self, i: usize) -> (k: usize)
        requires
            self.wf(),
            i < self.keys().len(),
        ensures
            k == self.keys()[i as int],
    {
        self.indices[i]
    }

    /// The value at position `i` of the insertion order.
    pub fn value_at(&self, i: usize) -> (v: &V)
        requires
            self.wf(),
            i < self.keys().len(),
        ensures
            *v == self.values()[i as int],
    {
        &self.dense[i]
    }

    /// The value at position `i` of the insertion order, for changing it.
    /// Keys and positions stay as they are.
    pub fn value_at_mut(&mut self, i: usize) -> (v: &mut V)
        requires
            old(self).wf(),
            i < old(self).keys().len(),
        ensures
            *v == old(self).values()[i as int],
            final(self).keys() == old(self).keys(),
            final(self).slots() == old(self).slots(),
            final(self).values() == old(self).values().update(i as int, *final(v)),
    {
        &mut self.dense[i]
    }

    /// A set with the keys and positions of a well-formed set, and as many
    /// values, is well-formed too.
    pub proof fn lemma_same_shape(&self, other: &Self)
        requires
            other.wf(),
            self.keys() == other.keys(),
            self.slots() == other.slots(),
            self.values().len() == other.values().len(),
        ensures
            self.wf(),
    {
    }

    /// The value stored under `index`, for changing it. Keys and positions
    /// stay as they are.
    pub fn get_mut(&mut self, index: usize) -> (r: Option<&mut V>)
        requires
            old(self).wf(),
        ensures
            final(self).keys() == old(self).keys(),
            final(self).slots() == old(self).slots(),
            final(self).wf(),
            forall|k: usize|
                k != index && old(self)@.contains_key(k) ==> #[trigger] final(self)@[k] == old(self)@[k],
            match r {
                Some(v) => old(self)@.contains_key(index) && *v == old(self)@[index]
                    && final(self).values() == old(self).values().update(
                    old(self).slots()[index] as int,
                    *final(v),
                ),
                None => !old(self)@.contains_key(index) && final(self).values() == old(self).values(),
            },
    {
        let found: Option<usize> = match self.sparse.get(index) {
            Some(slot) => Some(*slot),
            None => None,
        };
        match found {
            Some(slot) => {
                assert(self.slots().contains_key(index));
                Some(&mut self.dense[slot])
            },
            None => None,
        }
    }

    /// Replaces the value at position `i` of the insertion order.
    pub fn set_value_at(&mut self, i: usize, value: V)
        requires
            old(self).wf(),
            i < old(self).keys().len(),
        ensures
            final(self).wf(),
            final(self).keys() == old(self).keys(),
            final(self).values() == old(self).values().update(i as int, value),
            final(self)@ == old(self)@.insert(old(self).keys()[i as int], value),
    {
        self.dense[i] = value;
        assert(self@ =~= old(self)@.insert(old(self).keys()[i as int], value));
    }

    /// Stores `value` under `index`. A new key goes to the end of the
    /// insertion order; an existing key keeps its place and gets the new value.
    pub fn insert(&mut self, index: usize, value: V)
        requires
            old(self).wf(),
        ensures
            final(self).wf(),
            final(self)@ == old(self)@.insert(index, value),
            old(self)@.contains_key(index) ==> final(self).keys() == old(self).keys(),
            !old(self)@.contains_key(index) ==> final(self).keys() == old(self).keys().push(index)
                && final(self).values() == old(self).values().push(value),
    {
        let found: Option<usize> = match self.sparse.get(index) {
            Some(slot) => Some(*slot),
            None => None,
        };
        match found {
            Some(slot) => {
                assert(self.slots().contains_key(index));
                self.dense[slot] = value;
                assert(self@ =~= old(self)@.insert(index, value));
            },
            None => {
                let slot: usize = self.dense.len();
                self.sparse.insert(index, slot);
                self.indices.push(index);
                self.dense.push(value);
                assert(self@ =~= old(self)@.insert(index, value));
            },
        }
    }

    /// Removes the value stored under `index` and returns it. The last
    /// value of the insertion order takes its place, so that the values
    /// stay densely packed; no other value moves.
    pub fn remove(&mut self, index: usize) -> (r: Option<V>)
        requires
            old(self).wf(),
        ensures
            final(self).wf(),
            final(self)@ == old(self)@.remove(index),
            match r {
                Some(v) => old(self)@.contains_key(index) && v == old(self)@[index]
                    && final(self).keys() == old(self).keys().update(
                    old(self).slots()[index] as int,
                    old(self).keys().last(),
                ).drop_last() && final(self).values() == old(self).values().update(
                    old(self).slots()[index] as int,
                    old(self).values().last(),
                ).drop_last(),
                None => !old(self)@.contains_key(index) && final(self).keys() == old(self).keys()
                    && final(self).values() == old(self).values(),
            },
    {
        let slot: usize = match self.sparse.remove(index) {
            Some(slot) => slot,
            None => {
                assert(self@ =~= old(self)@.remove(index));
                return None;
            },
        };
        proof {
            assert(old(self).slots().contains_key(index));
            assert(old(self).keys()[slot as int] == index);
        }
        let last: usize = self.dense.len() - 1;
        let value = self.dense.swap_remove(slot);
        self.indices.swap_remove(slot);
        if slot != last {
            let moved: usize = self.indices[slot];
            proof {
                assert(moved == old(self).keys()[last as int]);
                assert(old(self).slots().contains_key(old(self).keys()[last as int]));
            }
            self.sparse.insert(moved, slot);
        }
        proof {
            let before = *old(self);
            assert forall|i: int| 0 <= i < self.keys().len() implies self.slots().contains_key(
                #[trigger] self.keys()[i],
            ) && self.slots()[self.keys()[i]] == i by {
                let source = if i == slot {
                    last as int
                } else {
                    i
                };
                assert(self.keys()[i] == before.keys()[source]);
                assert(before.slots().contains_key(before.keys()[source]));
                assert(before.slots()[before.keys()[source]] == source);
            }
            assert forall|k: usize| #[trigger] self.slots().contains_key(k) implies self.slots()[k]
                < self.keys().len() && self.keys()[self.slots()[k] as int] == k by {
                assert(before.slots().contains_key(k));
                if before.slots()[k] == last {
                    assert(before.keys()[last as int] == k);
                }
            }
            assert(self@ =~= before@.remove(index)) by {
                assert forall|k: usize| self@.contains_key(k) implies self@[k] == before@[k] by {
                    assert(before.slots().contains_key(k));
                    if before.slots()[k] == last {
                        assert(before.keys()[last as int] == k);
                    }
                }
            }
        }
        Some(value)
    }
}

} // verus!
