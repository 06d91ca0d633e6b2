//! Sparse-set storage for components: values that are found by entity
//! instead of by table row.

use crate::component::{ComponentId, ComponentTicks, Tick};
use crate::entity::Entity;
use crate::storage::column::{
    has_ticks, swept, swept_cell, ticks_after_write, Cell, CellView,
};
use crate::storage::sparse_set::SparseSet;
use vstd::prelude::*;

verus! {

/// The value that one entity has for a sparse-set component.
pub struct SparseCell {
    pub entity: Entity,
    pub cell: Cell,
}

/// The values of one sparse-set component, found by the slot index of their
/// entity. An entity's value stays where it is when the entity moves between
/// archetypes.
pub struct ComponentSparseSet {
    cells: SparseSet<SparseCell>,
}

impl ComponentSparseSet {
    /// The stored entities and their cells, by slot index.
    pub closed spec fn view(&self) -> Map<usize, (Entity, CellView)> {
        Map::new(
            |k: usize| self.cells@.contains_key(k),
            |k: usize| (self.cells@[k].entity, self.cells@[k].cell@),
        )
    }

    /// The number of stored values.
    pub closed spec fn count(&self) -> nat {
        self.cells.keys().len()
    }

    /// Every value is filed under the slot index of its entity.
    pub closed spec fn wf(&self) -> bool {
        &&& self.cells.wf()
        &&& forall|k: usize| #[trigger]
            self.cells@.contains_key(k) ==> self.cells@[k].entity.index == k
    }

    /// What well-formedness says of the view.
    pub proof fn lemma_wf(&self)
        requires
            self.wf(),
        ensures
            forall|k: usize| #[trigger] self@.contains_key(k) ==> self@[k].0.index == k,
    {
        assert forall|k: usize| #[trigger] self@.contains_key(k) implies self@[k].0.index == k by {
            assert(self.cells@.contains_key(k));
        }
    }

    /// The cell that is stored for `entity`, if there is one.
    pub open spec fn cell_of(&self, entity: Entity) -> Option<CellView> {
        if self@.contains_key(entity.index as usize) && self@[entity.index as usize].0 == entity {
            Some(self@[entity.index as usize].1)
        } else {
            None
        }
    }

    pub fn new() -> (s: Self)
        ensures
            s.wf(),
            s@ == Map::<usize, (Entity, CellView)>::empty(),
            s.count() == 0,
    {
        let s = ComponentSparseSet { cells: SparseSet::new() };
        assert(s@ =~= Map::<usize, (Entity, CellView)>::empty());
        s
    }

    pub fn len(&self) -> (n: usize)
        requires
            self.wf(),
        ensures
            n == self.count(),
    {
        self.cells.len()
    }

    pub fn is_empty(&self) -> (b: bool)
        requires
            self.wf(),
        ensures
            b == (self.count() == 0),
    {
        self.cells.is_empty()
    }

    /// Whether a value is stored for `entity`.
    pub fn contains(&self, entity: Entity) -> (b: bool)
        requires
            self.wf(),
        ensures
            b == self.cell_of(entity) is Some,
    {
        match self.cells.get(entity.index as usize) {
            Some(stored) => stored.entity.generation == entity.generation && stored.entity.index
                == entity.index,
            None => false,
        }
    }

    /// The ticks of a value that is written for `entity` at `change_tick`:
    /// a value that overwrites one of the same entity keeps its added tick.
    pub open spec fn written_ticks(&self, entity: Entity, change_tick: u32) -> ComponentTicks {
        match self.cell_of(entity) {
            Some(cell) => ComponentTicks { added: cell.1.added, changed: Tick { tick: change_tick } },
            None => ComponentTicks {
                added: Tick { tick: change_tick },
                changed: Tick { tick: change_tick },
            },
        }
    }

    /// Stores `value` for `entity`, changed at `change_tick`. If the entity
    /// had a value, it is overwritten and keeps its added tick; otherwise
    /// the value is added at `change_tick`, and any value that an earlier
    /// entity of the same slot left behind is dropped.
    pub fn insert(&mut self, entity: Entity, value: Vec<u8>, change_tick: u32)
        requires
            old(self).wf(),
        ensures
            final(self).wf(),
            final(self)@ == old(self)@.insert(
                entity.index as usize,
                (entity, (value@, old(self).written_ticks(entity, change_tick))),
            ),
    {
        let ghost before = self@;
        let ticks = match self.get_ticks(entity) {
            Some(ticks) => ComponentTicks { added: ticks.added, changed: Tick::new(change_tick) },
            None => ComponentTicks::new(change_tick),
        };
        self.cells.insert(entity.index as usize, SparseCell { entity, cell: Cell { value, ticks } });
        assert(self@ =~= before.insert(entity.index as usize, (entity, (value@, ticks))));
    }

    /// The bytes of the value of `entity`, if there is one.
    pub fn get(&self, entity: Entity) -> (r: Option<&Vec<u8>>)
        requires
            self.wf(),
        ensures
            match r {
                Some(bytes) => self.cell_of(entity) matches Some(cell) && bytes@ == cell.0,
                None => self.cell_of(entity) is None,
            },
    {
        match self.cells.get(entity.index as usize) {
            Some(stored) => {
                if stored.entity.generation == entity.generation && stored.entity.index
                    == entity.index {
                    Some(&stored.cell.value)
                } else {
                    None
                }
            },
            None => None,
        }
    }

    /// The ticks of the value of `entity`, if there is one.
    pub fn get_ticks(&self, entity: Entity) -> (r: Option<ComponentTicks>)
        requires
            self.wf(),
        ensures
            r == match self.cell_of(entity) {
                Some(cell) => Some(cell.1),
                None => None,
            },
    {
        match self.cells.get(entity.index as usize) {
            Some(stored) => {
                if stored.entity.generation == entity.generation && stored.entity.index
                    == entity.index {
                    Some(stored.cell.ticks)
                } else {
                    None
                }
            },
            None => None,
        }
    }

    /// Sweeps the ticks of every value: a tick that has fallen behind
    /// `change_tick` by more than the largest age is moved up to that age.
    pub fn check_change_ticks(&mut self, change_tick: u32)
        requires
            old(self).wf(),
        ensures
            final(self).wf(),
            final(self)@.dom() == old(self)@.dom(),
            final(self).count() == old(self).count(),
            forall|k: usize|
                old(self)@.contains_key(k) ==> #[trigger] final(self)@[k] == (
                    old(self)@[k].0,
                    swept_cell(old(self)@[k].1, change_tick),
                ),
    {
        let n: usize = self.cells.len();
        let mut i: usize = 0;
        while i < n
            invariant
                i <= n,
                n == old(self).cells.keys().len(),
                old(self).wf(),
                self.cells.wf(),
                self.cells.keys() == old(self).cells.keys(),
                self.cells.slots() == old(self).cells.slots(),
                self.cells.values().len() == n,
                forall|j: int|
                    i <= j < n ==> #[trigger] self.cells.values()[j] == old(self).cells.values()[j],
                forall|j: int|
                    0 <= j < i ==> (#[trigger] self.cells.values()[j]).entity
                        == old(self).cells.values()[j].entity && self.cells.values()[j].cell@
                        == swept_cell(old(self).cells.values()[j].cell@, change_tick),
            decreases n - i,
        {
            let ghost before = *self;
            let stored = self.cells.value_at_mut(i);
            stored.cell.ticks.check_ticks(change_tick);
            proof {
                self.cells.lemma_same_shape(&before.cells);
            }
            i += 1;
        }
        proof {
            assert(self@.dom() =~= old(self)@.dom());
            assert forall|k: usize| old(self)@.contains_key(k) implies #[trigger] self@[k] == (
                old(self)@[k].0,
                swept_cell(old(self)@[k].1, change_tick),
            ) by {
                assert(old(self).cells@.contains_key(k));
                let j = old(self).cells.slots()[k] as int;
                assert(0 <= j < n);
                assert(self.cells@[k] == self.cells.values()[j]);
            }
            assert forall|k: usize| #[trigger] self.cells@.contains_key(k) implies self.cells@[k].entity.index
                == k by {
                assert(old(self).cells@.contains_key(k));
                let j = old(self).cells.slots()[k] as int;
                assert(self.cells@[k] == self.cells.values()[j]);
            }
        }
    }

    /// Takes the value of `entity` out, if there is one. Nothing else
    /// changes.
    pub fn remove(&mut self, entity: Entity) -> (r: Option<Cell>)
        requires
            old(self).wf(),
        ensures
            final(self).wf(),
            match r {
                Some(cell) => old(self).cell_of(entity) == Some(cell@) && final(self)@
                    == old(self)@.remove(entity.index as usize),
                None => old(self).cell_of(entity) is None && final(self)@ == old(self)@,
            },
    {
        if !self.contains(entity) {
            return None;
        }
        let ghost before = self@;
        let stored = self.cells.remove(entity.index as usize);
        assert(self@ =~= before.remove(entity.index as usize));
        match stored {
            Some(stored) => Some(stored.cell),
            None => vstd::pervasive::unreached(),
        }
    }
}

/// The sparse-set storage of a world: one set of values for each component
/// that has been looked up for writing.
pub struct SparseSets {
    sets: SparseSet<ComponentSparseSet>,
}

impl SparseSets {
    /// The sets by the index of their component id.
    pub closed spec fn view(&self) -> Map<usize, ComponentSparseSet> {
        self.sets@
    }

    pub closed spec fn wf(&self) -> bool {
        &&& self.sets.wf()
        &&& forall|k: usize| #[trigger] self.sets@.contains_key(k) ==> self.sets@[k].wf()
    }

    /// What well-formedness says of the view.
    pub proof fn lemma_wf(&self)
        requires
            self.wf(),
        ensures
            forall|k: usize| #[trigger] self@.contains_key(k) ==> self@[k].wf(),
    {
    }

    /// The cell that `entity` has in the set of the component with index
    /// `k`: none if there is no such set.
    pub open spec fn cell_of(&self, k: usize, entity: Entity) -> Option<CellView> {
        if self@.contains_key(k) {
            self@[k].cell_of(entity)
        } else {
            None
        }
    }

    pub fn new() -> (s: Self)
        ensures
            s.wf(),
            s@ == Map::<usize, ComponentSparseSet>::empty(),
    {
        SparseSets { sets: SparseSet::new() }
    }

    /// The set of the component `component_id`, if there is one.
    pub fn get(&self, component_id: ComponentId) -> (r: Option<&ComponentSparseSet>)
        requires
            self.wf(),
        ensures
            match r {
                Some(set) => self@.contains_key(component_id.0) && *set == self@[component_id.0]
                    && set.wf(),
                None => !self@.contains_key(component_id.0),
            },
    {
        self.sets.get(component_id.0)
    }

    /// Makes sure that there is a set for the component `component_id`. A
    /// new set is empty; existing sets do not change.
    pub fn get_or_insert(&mut self, component_id: ComponentId)
        requires
            old(self).wf(),
        ensures
            final(self).wf(),
            old(self)@.contains_key(component_id.0) ==> final(self)@ == old(self)@,
            !old(self)@.contains_key(component_id.0) ==> final(self)@.dom() == old(self)@.dom().insert(
                component_id.0,
            ) && final(self)@[component_id.0]@ == Map::<usize, (Entity, CellView)>::empty()
                && forall|k: usize|
                old(self)@.contains_key(k) ==> #[trigger] final(self)@[k] == old(self)@[k],
    {
        if !self.sets.contains(component_id.0) {
            self.sets.insert(component_id.0, ComponentSparseSet::new());
            assert(self@.dom() =~= old(self)@.dom().insert(component_id.0));
        }
    }

    /// Stores `value` for `entity` in the set of `component_id`, which is
    /// created if there is none. No other set changes.
    pub fn insert(&mut self, component_id: ComponentId, entity: Entity, value: Vec<u8>, change_tick: u32)
        requires
            old(self).wf(),
        ensures
            final(self).wf(),
            final(self)@.dom() == old(self)@.dom().insert(component_id.0),
            final(self)@[component_id.0].cell_of(entity) == Some(
                (
                    value@,
                    if old(self)@.contains_key(component_id.0) {
                        old(self)@[component_id.0].written_ticks(entity, change_tick)
                    } else {
                        ComponentTicks {
                            added: Tick { tick: change_tick },
                            changed: Tick { tick: change_tick },
                        }
                    },
                ),
            ),
            forall|other: Entity|
                other.index != entity.index ==> #[trigger] final(self)@[component_id.0].cell_of(
                    other,
                ) == if old(self)@.contains_key(component_id.0) {
                    old(self)@[component_id.0].cell_of(other)
                } else {
                    None
                },
            forall|k: usize|
                k != component_id.0 && old(self)@.contains_key(k) ==> #[trigger] final(self)@[k]
                    == old(self)@[k],
    {
        self.get_or_insert(component_id);
        let ghost middle = *self;
        let mut set = match self.sets.remove(component_id.0) {
            Some(set) => set,
            None => vstd::pervasive::unreached(),
        };
        set.insert(entity, value, change_tick);
        self.sets.insert(component_id.0, set);
        proof {
            assert(self@.dom() =~= old(self)@.dom().insert(component_id.0));
            assert forall|k: usize| #[trigger] self.sets@.contains_key(k) implies self.sets@[k].wf() by {
                if k != component_id.0 {
                    assert(middle.sets@.contains_key(k));
                }
            }
        }
    }

    /// Stores `values[i]` for `entity` in the set of `ids[i]`, for each
    /// `i`; where a component is named more than once, the value of its
    /// first occurrence is the one that stays. No value of an entity of
    /// another slot changes.
    pub fn insert_all(
        &mut self,
        entity: Entity,
        ids: &Vec<ComponentId>,
        values: Vec<Vec<u8>>,
        change_tick: u32,
    )
        requires
            old(self).wf(),
            values@.len() == ids@.len(),
        ensures
            final(self).wf(),
            forall|k: usize, other: Entity|
                other.index != entity.index ==> #[trigger] final(self).cell_of(k, other)
                    == old(self).cell_of(k, other),
            forall|k: usize, other: Entity|
                (forall|j: int| 0 <= j < ids@.len() ==> ids@[j].0 != k)
                    ==> #[trigger] final(self).cell_of(k, other) == old(self).cell_of(k, other),
            forall|p: int, other: Entity|
                0 <= p < ids@.len() && other.index == entity.index && other != entity
                    ==> (#[trigger] final(self).cell_of(ids@[p].0, other)) is None,
            forall|p: int|
                0 <= p < ids@.len() && (forall|j: int| 0 <= j < p ==> ids@[j].0 != ids@[p].0)
                    ==> final(self).cell_of((#[trigger] ids@[p]).0, entity) == Some(
                    (
                        values@[p]@,
                        ticks_after_write(old(self).cell_of(ids@[p].0, entity), change_tick),
                    ),
                ),
    {
        let mut values = values;
        let ghost all = values@;
        let ghost n = ids@.len() as int;
        while values.len() > 0
            invariant
                all.len() == n,
                n == ids@.len(),
                values@.len() <= n,
                values@ == all.take(values@.len() as int),
                self.wf(),
                forall|k: usize, other: Entity|
                    other.index != entity.index ==> #[trigger] self.cell_of(k, other)
                        == old(self).cell_of(k, other),
                forall|k: usize, other: Entity|
                    (forall|j: int| values@.len() <= j < n ==> ids@[j].0 != k)
                        ==> #[trigger] self.cell_of(k, other) == old(self).cell_of(k, other),
                forall|p: int, other: Entity|
                    values@.len() <= p < n && other.index == entity.index && other != entity
                        ==> (#[trigger] self.cell_of(ids@[p].0, other)) is None,
                forall|k: usize|
                    (exists|j: int| values@.len() <= j < n && ids@[j].0 == k) ==> has_ticks(
                        #[trigger] self.cell_of(k, entity),
                        ticks_after_write(old(self).cell_of(k, entity), change_tick),
                    ),
                forall|p: int|
                    values@.len() <= p < n && (forall|j: int|
                        values@.len() <= j < p ==> ids@[j].0 != ids@[p].0) ==> self.cell_of(
                        (#[trigger] ids@[p]).0,
                        entity,
                    ) == Some(
                        (all[p]@, ticks_after_write(old(self).cell_of(ids@[p].0, entity), change_tick)),
                    ),
            decreases values@.len(),
        {
            let i: usize = values.len() - 1;
            let ghost before = *self;
            let value = match values.pop() {
                Some(value) => value,
                None => vstd::pervasive::unreached(),
            };
            let id = ids[i];
            assert(value == all[i as int]);
            assert(values@ =~= all.take(i as int));
            self.insert(id, entity, value, change_tick);
            proof {
                let target = ticks_after_write(old(self).cell_of(id.0, entity), change_tick);
                // the ticks of the value that was just written
                assert(self.cell_of(id.0, entity) == Some((value@, target))) by {
                    if exists|j: int| i < j < n && ids@[j].0 == id.0 {
                        assert(has_ticks(before.cell_of(id.0, entity), target));
                    } else {
                        assert(before.cell_of(id.0, entity) == old(self).cell_of(id.0, entity));
                    }
                }
                assert forall|k: usize, other: Entity|
                    other.index != entity.index implies #[trigger] self.cell_of(k, other)
                    == old(self).cell_of(k, other) by {
                    assert(before.cell_of(k, other) == old(self).cell_of(k, other));
                }
                assert forall|k: usize, other: Entity|
                    (forall|j: int| i <= j < n ==> ids@[j].0 != k) implies #[trigger] self.cell_of(
                    k,
                    other,
                ) == old(self).cell_of(k, other) by {
                    assert(ids@[i as int].0 != k);
                    assert(before.cell_of(k, other) == old(self).cell_of(k, other));
                }
                assert forall|p: int, other: Entity|
                    i <= p < n && other.index == entity.index && other != entity implies (
                #[trigger] self.cell_of(ids@[p].0, other)) is None by {
                    if ids@[p].0 != id.0 {
                        assert(before.cell_of(ids@[p].0, other) is None);
                    }
                }
                assert forall|k: usize| (exists|j: int| i <= j < n && ids@[j].0 == k) implies has_ticks(
                    #[trigger] self.cell_of(k, entity),
                    ticks_after_write(old(self).cell_of(k, entity), change_tick),
                ) by {
                    if k != id.0 {
                        let j = choose|j: int| i <= j < n && ids@[j].0 == k;
                        assert(i + 1 <= j < n && ids@[j].0 == k);
                        assert(before.cell_of(k, entity) == self.cell_of(k, entity));
                    }
                }
                assert forall|p: int|
                    i <= p < n && (forall|j: int|
                        i <= j < p ==> ids@[j].0 != ids@[p].0) implies self.cell_of(
                    (#[trigger] ids@[p]).0,
                    entity,
                ) == Some(
                    (all[p]@, ticks_after_write(old(self).cell_of(ids@[p].0, entity), change_tick)),
                ) by {
                    if p > i {
                        assert(ids@[i as int].0 != ids@[p].0);
                        assert(before.cell_of(ids@[p].0, entity) == self.cell_of(ids@[p].0, entity));
                    }
                }
            }
        }
    }

    /// Sweeps the ticks of every value of every set, see
    /// [`ComponentSparseSet::check_change_ticks`].
    pub fn check_change_ticks(&mut self, change_tick: u32)
        requires
            old(self).wf(),
        ensures
            final(self).wf(),
            final(self)@.dom() == old(self)@.dom(),
            forall|k: usize, entity: Entity| #[trigger]
                final(self).cell_of(k, entity) == swept(old(self).cell_of(k, entity), change_tick),
    {
        let n: usize = self.sets.len();
        let mut i: usize = 0;
        proof {
            self.sets.lemma_keys();
            assert forall|j: int| 0 <= j < n implies (#[trigger] self.sets.values()[j]).wf() by {
                assert(self.sets@.contains_key(self.sets.keys()[j]));
            }
        }
        while i < n
            invariant
                i <= n,
                n == old(self).sets.keys().len(),
                old(self).wf(),
                self.sets.wf(),
                self.sets.keys() == old(self).sets.keys(),
                self.sets.slots() == old(self).sets.slots(),
                self.sets.values().len() == n,
                forall|j: int|
                    i <= j < n ==> #[trigger] self.sets.values()[j] == old(self).sets.values()[j],
                forall|j: int| 0 <= j < n ==> (#[trigger] self.sets.values()[j]).wf(),
                forall|j: int, entity: Entity|
                    0 <= j < i ==> #[trigger] self.sets.values()[j].cell_of(entity) == swept(
                        old(self).sets.values()[j].cell_of(entity),
                        change_tick,
                    ),
            decreases n - i,
        {
            let ghost before = *self;
            let set = self.sets.value_at_mut(i);
            let ghost earlier = *set;
            set.check_change_ticks(change_tick);
            proof {
                self.sets.lemma_same_shape(&before.sets);
                assert forall|entity: Entity| #[trigger]
                    self.sets.values()[i as int].cell_of(entity) == swept(
                        earlier.cell_of(entity),
                        change_tick,
                    ) by {
                    if earlier@.contains_key(entity.index as usize) {
                        assert(self.sets.values()[i as int]@[entity.index as usize] == (
                            earlier@[entity.index as usize].0,
                            swept_cell(earlier@[entity.index as usize].1, change_tick),
                        ));
                    }
                }
            }
            i += 1;
        }
        proof {
            assert(self@.dom() =~= old(self)@.dom());
            assert forall|k: usize| #[trigger] self.sets@.contains_key(k) implies self.sets@[k].wf() by {
                let j = self.sets.slots()[k] as int;
                assert(self.sets@[k] == self.sets.values()[j]);
            }
            assert forall|k: usize, entity: Entity| #[trigger]
                self.cell_of(k, entity) == swept(old(self).cell_of(k, entity), change_tick) by {
                if old(self)@.contains_key(k) {
                    let j = old(self).sets.slots()[k] as int;
                    assert(0 <= j < n);
                    assert(self.sets@[k] == self.sets.values()[j]);
                    assert(old(self).sets@[k] == old(self).sets.values()[j]);
                }
            }
        }
    }

    /// Takes the value of `entity` out of the set of `component_id`, if
    /// there is one. No other value changes.
    pub fn remove(&mut self, component_id: ComponentId, entity: Entity) -> (r: Option<Cell>)
        requires
            old(self).wf(),
        ensures
            final(self).wf(),
            final(self)@.dom() == old(self)@.dom(),
            forall|k: usize|
                k != component_id.0 && old(self)@.contains_key(k) ==> #[trigger] final(self)@[k]
                    == old(self)@[k],
            match r {
                Some(cell) => old(self)@.contains_key(component_id.0)
                    && old(self)@[component_id.0].cell_of(entity) == Some(cell@)
                        && final(self)@[component_id.0]@
                    == old(self)@[component_id.0]@.remove(entity.index as usize),
                None => (old(self)@.contains_key(component_id.0)
                    ==> old(self)@[component_id.0].cell_of(entity) is None) && final(self)@ == old(self)@,
            },
    {
        let found = match self.sets.get(component_id.0) {
            Some(set) => set.contains(entity),
            None => false,
        };
        if !found {
            return None;
        }
        let ghost before = *self;
        let mut set = match self.sets.remove(component_id.0) {
            Some(set) => set,
            None => vstd::pervasive::unreached(),
        };
        let r = set.remove(entity);
        self.sets.insert(component_id.0, set);
        proof {
            assert(self@.dom() =~= old(self)@.dom());
            assert forall|k: usize| #[trigger] self.sets@.contains_key(k) implies self.sets@[k].wf() by {
                if k != component_id.0 {
                    assert(before.sets@.contains_key(k));
                }
            }
        }
        r
    }
}

} // verus!
