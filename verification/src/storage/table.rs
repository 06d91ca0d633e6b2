//! Tables: row-indexed storage shared by archetypes with the same
//! table-stored components.

use crate::archetype::same_components;
use crate::component::{clamped_tick, ComponentId, ComponentTicks, Tick};
use crate::entity::Entity;
use crate::registry::{id_for, register};
use crate::storage::column::{swept_cell, Cell, CellView, Column};
use crate::storage::sparse_set::SparseSet;
use vstd::prelude::*;

verus! {

/// Identifier of a table: its position in [`Tables`].
#[derive(Debug, Copy, Clone, PartialEq, Eq, Hash, Structural)]
pub struct TableId(pub usize);

impl TableId {
    pub fn new(index: usize) -> (id: Self)
        ensures
            id.0 == index,
    {
        TableId(index)
    }

    pub fn index(self) -> (i: usize)
        ensures
            i == self.0,
    {
        self.0
    }

    /// The id of the table without columns, which always exists.
    pub fn empty() -> (id: Self)
        ensures
            id.0 == 0,
    {
        TableId(0)
    }
}

/// What [`Table::swap_remove`] reports: the entity that was moved into the
/// vacated row, if any.
#[derive(Debug, Copy, Clone, PartialEq, Eq, Structural)]
pub struct TableSwapRemoveResult {
    pub swapped_entity: Option<Entity>,
}

/// What [`Table::move_to`] reports: the entity that was moved into the
/// vacated row of the source table, if any, and the row in the destination
/// table.
#[derive(Debug, Copy, Clone, PartialEq, Eq, Structural)]
pub struct TableMoveResult {
    pub swapped_entity: Option<Entity>,
    pub new_row: usize,
}

/// The number of columns among the first `j` of `dst_ids` that `src` lacks.
pub open spec fn missing_before(src: &Table, dst_ids: Seq<usize>, j: int) -> nat
    decreases j,
{
    if j <= 0 {
        0
    } else {
        missing_before(src, dst_ids, j - 1) + if src.has(dst_ids[j - 1]) {
            0nat
        } else {
            1nat
        }
    }
}

/// `missing_before` never decreases.
pub proof fn lemma_missing_before_monotonic(src: &Table, dst_ids: Seq<usize>, i: int, j: int)
    requires
        0 <= i <= j,
    ensures
        missing_before(src, dst_ids, i) <= missing_before(src, dst_ids, j),
    decreases j - i,
{
    if i < j {
        lemma_missing_before_monotonic(src, dst_ids, i, j - 1);
    }
}

/// The cell that a row moved out of `src` gets in column number `j` of the
/// destination: its own cell where `src` has the column, and otherwise the
/// next of the `added` values, added and changed at `change_tick`.
pub open spec fn moved_cell(
    src: &Table,
    dst_ids: Seq<usize>,
    added: Seq<Vec<u8>>,
    row: int,
    j: int,
    change_tick: u32,
) -> CellView {
    if src.has(dst_ids[j]) {
        src.cells_of(dst_ids[j])[row]
    } else {
        (
            added[missing_before(src, dst_ids, j) as int]@,
            ComponentTicks { added: Tick { tick: change_tick }, changed: Tick { tick: change_tick } },
        )
    }
}

/// `order` after appending the index of each component of `ids` that is not
/// in it yet.
pub open spec fn distinct_indices(order: Seq<usize>, ids: Seq<ComponentId>) -> Seq<usize>
    decreases ids.len(),
{
    if ids.len() == 0 {
        order
    } else {
        let before = distinct_indices(order, ids.drop_last());
        if before.contains(ids.last().0) {
            before
        } else {
            before.push(ids.last().0)
        }
    }
}

/// Row-indexed columnar storage: row `r` belongs to the entity
/// `entities()[r]`, and each column holds one cell for each row.
pub struct Table {
    columns: SparseSet<Column>,
    entities: Vec<Entity>,
}

impl Table {
    /// The entity of each row.
    pub closed spec fn view(&self) -> Seq<Entity> {
        self.entities@
    }

    /// The component indices of the columns, in the order of their creation.
    pub closed spec fn column_ids(&self) -> Seq<usize> {
        self.columns.keys()
    }

    /// The cells of each column, in the order of `column_ids()`.
    pub closed spec fn column_cells(&self) -> Seq<Seq<CellView>> {
        Seq::new(self.columns.values().len(), |i: int| self.columns.values()[i]@)
    }

    /// Whether the table has a column for the component with index `k`.
    pub closed spec fn has(&self, k: usize) -> bool {
        self.columns@.contains_key(k)
    }

    /// The cells of the column of the component with index `k`.
    pub closed spec fn cells_of(&self, k: usize) -> Seq<CellView> {
        self.columns@[k]@
    }

    /// No component has two columns, and every column has one cell for each
    /// row.
    pub closed spec fn wf(&self) -> bool {
        &&& self.columns.wf()
        &&& forall|i: int|
            0 <= i < self.columns.values().len() ==> (#[trigger] self.columns.values()[i])@.len()
                == self.entities@.len()
    }

    /// What well-formedness says of the public views.
    pub proof fn lemma_wf(&self)
        requires
            self.wf(),
        ensures
            self.column_ids().no_duplicates(),
            self.column_ids().len() == self.column_cells().len(),
            forall|k: usize| self.has(k) <==> self.column_ids().contains(k),
            forall|i: int|
                0 <= i < self.column_ids().len() ==> self.has(#[trigger] self.column_ids()[i])
                    && self.cells_of(self.column_ids()[i]) == self.column_cells()[i],
            forall|i: int|
                0 <= i < self.column_cells().len() ==> (#[trigger] self.column_cells()[i]).len()
                    == self@.len(),
            forall|k: usize| self.has(k) ==> (#[trigger] self.cells_of(k)).len() == self@.len(),
            self@.len() <= usize::MAX,
    {
        self.columns.lemma_keys();
        assert(self.entities.len() == self.entities@.len());
        assert forall|k: usize| self.has(k) implies (#[trigger] self.cells_of(k)).len()
            == self@.len() by {
            let i = choose|i: int| 0 <= i < self.column_ids().len() && self.column_ids()[i] == k;
            assert(self.columns@.contains_key(self.columns.keys()[i]));
        }
    }

    /// A table without rows that has one column for each component of
    /// `component_ids`.
    pub fn new(component_ids: &Vec<ComponentId>) -> (t: Self)
        ensures
            t.wf(),
            t@ == Seq::<Entity>::empty(),
            t.column_ids() == distinct_indices(Seq::empty(), component_ids@),
            forall|k: usize| t.has(k) <==> component_ids@.contains(ComponentId(k)),
    {
        let mut t = Table { columns: SparseSet::new(), entities: Vec::new() };
        let mut i: usize = 0;
        while i < component_ids.len()
            invariant
                i <= component_ids@.len(),
                t.wf(),
                t@ == Seq::<Entity>::empty(),
                t.column_ids() == distinct_indices(Seq::empty(), component_ids@.take(i as int)),
                forall|k: usize|
                    t.has(k) <==> component_ids@.take(i as int).contains(ComponentId(k)),
            decreases component_ids@.len() - i,
        {
            let ghost before = t;
            let ghost prefix = component_ids@.take(i as int);
            let ghost next = component_ids@.take(i + 1);
            let key: usize = component_ids[i].0;
            proof {
                before.columns.lemma_keys();
                assert(next.drop_last() =~= prefix);
                assert(next.last() == component_ids@[i as int]);
            }
            if !t.columns.contains(key) {
                t.columns.insert(key, Column::new());
            }
            proof {
                assert forall|k: usize| t.has(k) <==> next.contains(ComponentId(k)) by {
                    assert(t.has(k) == (k == key || before.has(k)));
                    assert(before.has(k) <==> prefix.contains(ComponentId(k)));
                    if next.contains(ComponentId(k)) {
                        let j = choose|j: int| 0 <= j < next.len() && next[j] == ComponentId(k);
                        if j < i {
                            assert(prefix[j] == ComponentId(k));
                        }
                    }
                    if prefix.contains(ComponentId(k)) {
                        let j = choose|j: int| 0 <= j < prefix.len() && prefix[j] == ComponentId(k);
                        assert(next[j] == ComponentId(k));
                    }
                    if k == key {
                        assert(next[i as int] == ComponentId(k));
                    }
                }
            }
            i += 1;
        }
        assert(component_ids@.take(component_ids@.len() as int) =~= component_ids@);
        t
    }

    pub fn entities(&self) -> (entities: &[Entity])
        ensures
            entities@ == self@,
    {
        self.entities.as_slice()
    }

    #[verifier::when_used_as_spec(spec_entity_count)]
    pub fn entity_count(&self) -> (n: usize)
        ensures
            n == self@.len(),
    {
        self.entities.len()
    }

    pub open spec fn spec_entity_count(&self) -> usize {
        self@.len() as usize
    }

    pub fn is_empty(&self) -> (b: bool)
        ensures
            b == (self@.len() == 0),
    {
        self.entities.len() == 0
    }

    /// Whether the table has a column for `component_id`.
    pub fn has_column(&self, component_id: ComponentId) -> (b: bool)
        ensures
            b == self.has(component_id.0),
    {
        self.columns.contains(component_id.0)
    }

    /// The component index of column number `j` of `column_ids()`.
    pub fn column_id_at(&self, j: usize) -> (k: usize)
        requires
            self.wf(),
            j < self.column_ids().len(),
        ensures
            k == self.column_ids()[j as int],
    {
        self.columns.key_at(j)
    }

    /// The number of columns.
    pub fn column_count(&self) -> (n: usize)
        requires
            self.wf(),
        ensures
            n == self.column_ids().len(),
    {
        self.columns.len()
    }

    /// The bytes of the value of `component_id` in `row`, if the table has
    /// that column and that row.
    pub fn get(&self, component_id: ComponentId, row: usize) -> (r: Option<&Vec<u8>>)
        requires
            self.wf(),
        ensures
            match r {
                Some(bytes) => self.has(component_id.0) && row < self@.len() && bytes@
                    == self.cells_of(component_id.0)[row as int].0,
                None => !(self.has(component_id.0) && row < self@.len()),
            },
    {
        proof {
            self.lemma_wf();
        }
        match self.columns.get(component_id.0) {
            Some(column) => {
                if row < column.len() {
                    Some(column.get_data(row))
                } else {
                    None
                }
            },
            None => None,
        }
    }

    /// The ticks that `get_ticks` reports, as a specification.
    pub open spec fn ticks_at(&self, k: usize, row: usize) -> Option<ComponentTicks> {
        if self.has(k) && row < self@.len() {
            Some(self.cells_of(k)[row as int].1)
        } else {
            None
        }
    }

    /// The ticks of the value of `component_id` in `row`, if the table has
    /// that column and that row.
    pub fn get_ticks(&self, component_id: ComponentId, row: usize) -> (r: Option<ComponentTicks>)
        requires
            self.wf(),
        ensures
            r == self.ticks_at(component_id.0, row),
    {
        proof {
            self.lemma_wf();
        }
        match self.columns.get(component_id.0) {
            Some(column) => {
                if row < column.len() {
                    Some(column.get_ticks(row))
                } else {
                    None
                }
            },
            None => None,
        }
    }

    /// Adds a row for `entity`. The row's value in column number `i`, in
    /// the order of `column_ids()`, is `values[i]`, added and changed at
    /// `change_tick`.
    pub fn allocate(
        &mut self,
        entity: Entity,
        values: Vec<Vec<u8>>,
        change_tick: u32,
    ) -> (row: usize)
        requires
            old(self).wf(),
            values@.len() == old(self).column_ids().len(),
        ensures
            final(self).wf(),
            row == old(self)@.len(),
            final(self)@ == old(self)@.push(entity),
            final(self).column_ids() == old(self).column_ids(),
            final(self).column_cells().len() == old(self).column_cells().len(),
            forall|k: usize| final(self).has(k) == old(self).has(k),
            forall|i: int|
                0 <= i < final(self).column_cells().len()
                    ==> #[trigger] final(self).column_cells()[i] == old(self).column_cells()[i].push(
                    (
                        values@[i]@,
                        ComponentTicks {
                            added: Tick { tick: change_tick },
                            changed: Tick { tick: change_tick },
                        },
                    ),
                ),
    {
        let mut values = values;
        let ghost all = values@;
        let n: usize = self.columns.len();
        let mut i: usize = n;
        while i > 0
            invariant
                i <= n,
                n == old(self).column_ids().len(),
                all.len() == n,
                values@ == all.take(i as int),
                self.columns.wf(),
                self.columns.keys() == old(self).columns.keys(),
                self.columns.slots() == old(self).columns.slots(),
                self.columns.values().len() == n,
                self.entities == old(self).entities,
                old(self).wf(),
                forall|j: int|
                    0 <= j < i ==> #[trigger] self.columns.values()[j] == old(self).columns.values()[j],
                forall|j: int|
                    i <= j < n ==> (#[trigger] self.columns.values()[j])@
                        == old(self).columns.values()[j]@.push(
                        (
                            all[j]@,
                            ComponentTicks {
                                added: Tick { tick: change_tick },
                                changed: Tick { tick: change_tick },
                            },
                        ),
                    ),
            decreases i,
        {
            i -= 1;
            let value = values.pop().unwrap();
            assert(value == all[i as int]);
            let ghost before = *self;
            let column = self.columns.value_at_mut(i);
            column.push(Cell { value, ticks: ComponentTicks::new(change_tick) });
            proof {
                self.columns.lemma_same_shape(&before.columns);
                assert(values@ =~= all.take(i as int));
            }
        }
        self.entities.push(entity);
        proof {
            assert forall|k: usize| self.has(k) == old(self).has(k) by {}
        }
        self.entities.len() - 1
    }

    /// Removes `row` by moving the last row into its place, in the entity
    /// list and in every column, and reports the entity that moved, if any.
    /// The values of the removed row are dropped. No other row changes.
    pub fn swap_remove(&mut self, row: usize) -> (r: TableSwapRemoveResult)
        requires
            old(self).wf(),
            row < old(self)@.len(),
        ensures
            final(self).wf(),
            final(self)@ == old(self)@.update(row as int, old(self)@.last()).drop_last(),
            final(self).column_ids() == old(self).column_ids(),
            final(self).column_cells().len() == old(self).column_cells().len(),
            forall|k: usize| final(self).has(k) == old(self).has(k),
            forall|i: int|
                0 <= i < final(self).column_cells().len()
                    ==> #[trigger] final(self).column_cells()[i] == old(self).column_cells()[i].update(
                    row as int,
                    old(self).column_cells()[i].last(),
                ).drop_last(),
            r.swapped_entity == if row == old(self)@.len() - 1 {
                None
            } else {
                Some(old(self)@.last())
            },
    {
        let n: usize = self.columns.len();
        let mut i: usize = 0;
        while i < n
            invariant
                i <= n,
                n == old(self).column_ids().len(),
                row < old(self)@.len(),
                self.columns.wf(),
                self.columns.keys() == old(self).columns.keys(),
                self.columns.slots() == old(self).columns.slots(),
                self.columns.values().len() == n,
                self.entities == old(self).entities,
                old(self).wf(),
                forall|j: int|
                    i <= j < n ==> #[trigger] self.columns.values()[j] == old(self).columns.values()[j],
                forall|j: int|
                    0 <= j < i ==> (#[trigger] self.columns.values()[j])@
                        == old(self).columns.values()[j]@.update(
                        row as int,
                        old(self).columns.values()[j]@.last(),
                    ).drop_last(),
            decreases n - i,
        {
            let ghost before = *self;
            let column = self.columns.value_at_mut(i);
            assert(column@.len() == old(self).entities@.len());
            let _ = column.swap_remove(row);
            proof {
                self.columns.lemma_same_shape(&before.columns);
            }
            i += 1;
        }
        let is_last = row == self.entities.len() - 1;
        self.entities.swap_remove(row);
        proof {
            assert forall|k: usize| self.has(k) == old(self).has(k) by {}
        }
        TableSwapRemoveResult {
            swapped_entity: if is_last {
                None
            } else {
                Some(self.entities[row])
            },
        }
    }

    /// Overwrites the value of `component_id` in `row` and reports whether
    /// there was such a cell. The cell's changed tick becomes `change_tick`
    /// and its added tick stays. Nothing else changes.
    pub fn replace(
        &mut self,
        component_id: ComponentId,
        row: usize,
        value: Vec<u8>,
        change_tick: u32,
    ) -> (replaced: bool)
        requires
            old(self).wf(),
        ensures
            final(self).wf(),
            replaced == (old(self).has(component_id.0) && row < old(self)@.len()),
            final(self)@ == old(self)@,
            final(self).column_ids() == old(self).column_ids(),
            forall|k: usize| final(self).has(k) == old(self).has(k),
            forall|k: usize|
                k != component_id.0 && old(self).has(k) ==> #[trigger] final(self).cells_of(k)
                    == old(self).cells_of(k),
            replaced ==> final(self).cells_of(component_id.0) == old(self).cells_of(
                component_id.0,
            ).update(
                row as int,
                (
                    value@,
                    ComponentTicks {
                        added: old(self).cells_of(component_id.0)[row as int].1.added,
                        changed: Tick { tick: change_tick },
                    },
                ),
            ),
            !replaced ==> old(self).has(component_id.0) ==> final(self).cells_of(component_id.0)
                == old(self).cells_of(component_id.0),
    {
        proof {
            self.lemma_wf();
            self.columns.lemma_keys();
        }
        let ghost before = *self;
        let mut replaced = false;
        match self.columns.get_mut(component_id.0) {
            Some(column) => {
                if row < column.len() {
                    column.replace(row, value, change_tick);
                    replaced = true;
                }
            },
            None => {},
        }
        proof {
            assert forall|i: int| 0 <= i < self.columns.values().len() implies (
            #[trigger] self.columns.values()[i])@.len() == self.entities@.len() by {
                assert(before.columns.values()[i]@.len() == before.entities@.len());
            }
            assert forall|k: usize| self.has(k) == old(self).has(k) by {}
        }
        replaced
    }

    /// Moves `row` to a new last row of `dst`, and closes the gap by moving
    /// the last row of this table into its place.
    ///
    /// Each column of `dst` gets a cell for the new row: the cell of the
    /// moved row, with its ticks, where this table has the column too, and
    /// otherwise the next value of `added`, added and changed at
    /// `change_tick`. `added` holds one value for each column of `dst` that
    /// this table lacks, in the order of the columns of `dst`. Cells of the
    /// moved row in columns that `dst` lacks are dropped.
    pub fn move_to(
        &mut self,
        row: usize,
        dst: &mut Table,
        added: Vec<Vec<u8>>,
        change_tick: u32,
    ) -> (r: TableMoveResult)
        requires
            old(self).wf(),
            old(dst).wf(),
            row < old(self)@.len(),
            added@.len() == missing_before(
                old(self),
                old(dst).column_ids(),
                old(dst).column_ids().len() as int,
            ),
        ensures
            final(self).wf(),
            final(dst).wf(),
            final(self)@ == old(self)@.update(row as int, old(self)@.last()).drop_last(),
            final(self).column_ids() == old(self).column_ids(),
            final(self).column_cells().len() == old(self).column_cells().len(),
            forall|k: usize| final(self).has(k) == old(self).has(k),
            forall|i: int|
                0 <= i < final(self).column_cells().len()
                    ==> #[trigger] final(self).column_cells()[i] == old(self).column_cells()[i].update(
                    row as int,
                    old(self).column_cells()[i].last(),
                ).drop_last(),
            r.swapped_entity == if row == old(self)@.len() - 1 {
                None
            } else {
                Some(old(self)@.last())
            },
            r.new_row == old(dst)@.len(),
            final(dst)@ == old(dst)@.push(old(self)@[row as int]),
            final(dst).column_ids() == old(dst).column_ids(),
            final(dst).column_cells().len() == old(dst).column_cells().len(),
            forall|k: usize| final(dst).has(k) == old(dst).has(k),
            forall|j: int|
                0 <= j < final(dst).column_cells().len() ==> #[trigger] final(dst).column_cells()[j]
                    == old(dst).column_cells()[j].push(
                    moved_cell(old(self), old(dst).column_ids(), added@, row as int, j, change_tick),
                ),
    {
        proof {
            old(self).lemma_wf();
            old(dst).lemma_wf();
            old(self).columns.lemma_keys();
            old(dst).columns.lemma_keys();
        }
        let ghost src_keys = old(self).columns.keys();
        let ghost dst_keys = old(dst).columns.keys();
        let n: usize = self.columns.len();
        let m: usize = dst.columns.len();
        // take the row out of every column of this table
        let mut i: usize = 0;
        while i < n
            invariant
                i <= n,
                n == src_keys.len(),
                m == dst_keys.len(),
                row < old(self)@.len(),
                old(self).wf(),
                old(dst).wf(),
                src_keys == old(self).columns.keys(),
                dst_keys == old(dst).columns.keys(),
                self.columns.wf(),
                self.columns.keys() == src_keys,
                self.columns.slots() == old(self).columns.slots(),
                self.columns.values().len() == n,
                self.entities == old(self).entities,
                dst.columns.wf(),
                dst.columns.keys() == dst_keys,
                dst.columns.slots() == old(dst).columns.slots(),
                dst.columns.values().len() == m,
                dst.entities == old(dst).entities,
                forall|p: int|
                    i <= p < n ==> #[trigger] self.columns.values()[p] == old(self).columns.values()[p],
                forall|p: int|
                    0 <= p < i ==> (#[trigger] self.columns.values()[p])@
                        == old(self).columns.values()[p]@.update(
                        row as int,
                        old(self).columns.values()[p]@.last(),
                    ).drop_last(),
                forall|q: int|
                    0 <= q < m ==> (#[trigger] dst.columns.values()[q])@ == if src_keys.take(
                        i as int,
                    ).contains(dst_keys[q]) {
                        old(dst).columns.values()[q]@.push(old(self).cells_of(dst_keys[q])[row as int])
                    } else {
                        old(dst).columns.values()[q]@
                    },
            decreases n - i,
        {
            let ghost before = *self;
            let ghost dst_before = *dst;
            let ghost seen = src_keys.take(i as int);
            let ghost seen_next = src_keys.take(i + 1);
            let key: usize = self.columns.key_at(i);
            let column = self.columns.value_at_mut(i);
            assert(column@.len() == old(self).entities@.len());
            let cell = column.swap_remove(row);
            proof {
                self.columns.lemma_same_shape(&before.columns);
                assert(old(self).columns@.contains_key(src_keys[i as int]));
                assert(cell@ == old(self).cells_of(key)[row as int]);
                assert(seen_next.drop_last() =~= seen);
                assert(seen_next.last() == key);
                assert(!seen.contains(key)) by {
                    if seen.contains(key) {
                        let p = choose|p: int| 0 <= p < seen.len() && seen[p] == key;
                        assert(src_keys[p] == src_keys[i as int]);
                    }
                }
                assert forall|k: usize| seen_next.contains(k) <==> (seen.contains(k) || k
                    == key) by {
                    if seen.contains(k) {
                        let p = choose|p: int| 0 <= p < seen.len() && seen[p] == k;
                        assert(seen_next[p] == k);
                    }
                    if seen_next.contains(k) {
                        let p = choose|p: int| 0 <= p < seen_next.len() && seen_next[p] == k;
                        if p < i {
                            assert(seen[p] == k);
                        }
                    }
                    assert(seen_next[i as int] == key);
                }
            }
            match dst.columns.get_mut(key) {
                Some(target) => {
                    target.push(cell);
                },
                None => {},
            }
            proof {
                assert forall|q: int| 0 <= q < m implies (#[trigger] dst.columns.values()[q])@
                    == if seen_next.contains(dst_keys[q]) {
                    old(dst).columns.values()[q]@.push(old(self).cells_of(dst_keys[q])[row as int])
                } else {
                    old(dst).columns.values()[q]@
                } by {
                    assert(dst_before.columns.slots().contains_key(dst_keys[q]));
                    if dst_keys[q] == key {
                        assert(dst_before.columns.slots()[key] == q);
                    } else {
                        if dst_before.columns@.contains_key(key) {
                            assert(dst_before.columns.slots()[key] != q);
                        }
                        assert(dst.columns.values()[q] == dst_before.columns.values()[q]);
                    }
                }
            }
            i += 1;
        }
        proof {
            assert(src_keys.take(n as int) =~= src_keys);
        }
        // fill the columns that only `dst` has, last column first
        let mut added = added;
        let ghost all = added@;
        let ticks = ComponentTicks::new(change_tick);
        let mut j: usize = m;
        while j > 0
            invariant
                j <= m,
                m == dst_keys.len(),
                old(self).wf(),
                old(dst).wf(),
                src_keys == old(self).columns.keys(),
                dst_keys == old(dst).columns.keys(),
                self.columns.wf(),
                self.columns.keys() == src_keys,
                self.columns.slots() == old(self).columns.slots(),
                ticks == (ComponentTicks {
                    added: Tick { tick: change_tick },
                    changed: Tick { tick: change_tick },
                }),
                all.len() == missing_before(old(self), dst_keys, m as int),
                added@ == all.take(missing_before(old(self), dst_keys, j as int) as int),
                dst.columns.wf(),
                dst.columns.keys() == dst_keys,
                dst.columns.slots() == old(dst).columns.slots(),
                dst.columns.values().len() == m,
                dst.entities == old(dst).entities,
                forall|q: int|
                    0 <= q < j ==> (#[trigger] dst.columns.values()[q])@ == if src_keys.contains(
                        dst_keys[q],
                    ) {
                        old(dst).columns.values()[q]@.push(old(self).cells_of(dst_keys[q])[row as int])
                    } else {
                        old(dst).columns.values()[q]@
                    },
                forall|q: int|
                    j <= q < m ==> (#[trigger] dst.columns.values()[q])@
                        == old(dst).columns.values()[q]@.push(
                        moved_cell(old(self), dst_keys, all, row as int, q, change_tick),
                    ),
            decreases j,
        {
            j -= 1;
            let key: usize = dst.columns.key_at(j);
            proof {
                lemma_missing_before_monotonic(old(self), dst_keys, j + 1, m as int);
                assert(old(self).has(key) <==> src_keys.contains(key));
            }
            if !self.columns.contains(key) {
                let value = added.pop().unwrap();
                let ghost dst_before = *dst;
                let column = dst.columns.value_at_mut(j);
                column.push(Cell { value, ticks });
                proof {
                    dst.columns.lemma_same_shape(&dst_before.columns);
                    assert(added@ =~= all.take(missing_before(old(self), dst_keys, j as int) as int));
                }
            }
        }
        let is_last = row == self.entities.len() - 1;
        let entity = self.entities.swap_remove(row);
        dst.entities.push(entity);
        proof {
            assert forall|k: usize| self.has(k) == old(self).has(k) by {}
            assert forall|k: usize| dst.has(k) == old(dst).has(k) by {}
        }
        TableMoveResult {
            swapped_entity: if is_last {
                None
            } else {
                Some(self.entities[row])
            },
            new_row: dst.entities.len() - 1,
        }
    }

    /// The table is `before` after a sweep at `now`: the same rows and
    /// columns, with every cell swept.
    pub open spec fn swept_from(&self, before: &Table, now: u32) -> bool {
        &&& self@ == before@
        &&& self.column_ids() == before.column_ids()
        &&& self.column_cells().len() == before.column_cells().len()
        &&& forall|k: usize| self.has(k) == before.has(k)
        &&& forall|i: int, row: int|
            0 <= i < self.column_cells().len() && 0 <= row < self@.len()
                ==> #[trigger] self.column_cells()[i][row] == swept_cell(
                before.column_cells()[i][row],
                now,
            )
    }

    /// Sweeps the ticks of every cell, see [`Column::check_change_ticks`].
    pub fn check_change_ticks(&mut self, change_tick: u32)
        requires
            old(self).wf(),
        ensures
            final(self).wf(),
            final(self).swept_from(old(self), change_tick),
            final(self)@ == old(self)@,
            final(self).column_ids() == old(self).column_ids(),
            final(self).column_cells().len() == old(self).column_cells().len(),
            forall|k: usize| final(self).has(k) == old(self).has(k),
            forall|i: int, row: int|
                0 <= i < final(self).column_cells().len() && 0 <= row < final(self)@.len() ==> {
                    let after = #[trigger] final(self).column_cells()[i][row];
                    let before = old(self).column_cells()[i][row];
                    &&& after.0 == before.0
                    &&& after.1.added.tick == clamped_tick(before.1.added.tick, change_tick)
                    &&& after.1.changed.tick == clamped_tick(before.1.changed.tick, change_tick)
                },
    {
        let n: usize = self.columns.len();
        let mut i: usize = 0;
        while i < n
            invariant
                i <= n,
                n == old(self).column_ids().len(),
                self.columns.wf(),
                self.columns.keys() == old(self).columns.keys(),
                self.columns.slots() == old(self).columns.slots(),
                self.columns.values().len() == n,
                self.entities == old(self).entities,
                old(self).wf(),
                forall|j: int|
                    i <= j < n ==> #[trigger] self.columns.values()[j] == old(self).columns.values()[j],
                forall|j: int|
                    0 <= j < n ==> (#[trigger] self.columns.values()[j])@.len() == old(self).entities@.len(),
                forall|j: int, row: int|
                    0 <= j < i && 0 <= row < old(self).entities@.len() ==> {
                        let after = #[trigger] self.columns.values()[j]@[row];
                        let before = old(self).columns.values()[j]@[row];
                        &&& after.0 == before.0
                        &&& after.1.added.tick == clamped_tick(before.1.added.tick, change_tick)
                        &&& after.1.changed.tick == clamped_tick(before.1.changed.tick, change_tick)
                    },
            decreases n - i,
        {
            let ghost before = *self;
            let column = self.columns.value_at_mut(i);
            column.check_change_ticks(change_tick);
            proof {
                self.columns.lemma_same_shape(&before.columns);
            }
            i += 1;
        }
        proof {
            assert forall|k: usize| self.has(k) == old(self).has(k) by {}
        }
    }
}

/// All tables of a world, with the lookup from column list to id.
///
/// Tables are never removed, so an id stays valid for the lifetime of the
/// collection.
pub struct Tables {
    tables: Vec<Table>,
    table_ids: Vec<Vec<ComponentId>>,
}

impl Tables {
    /// The tables, indexed by id.
    pub closed spec fn view(&self) -> Seq<Table> {
        self.tables@
    }

    /// The registered column lists, indexed by id.
    pub closed spec fn keys(&self) -> Seq<Seq<ComponentId>> {
        Seq::new(self.table_ids@.len(), |i: int| self.table_ids@[i]@)
    }

    /// Every table has the columns it is registered under, no column list is
    /// registered twice, and the table without columns is table 0.
    pub open spec fn wf(&self) -> bool {
        &&& self@.len() == self.keys().len()
        &&& self@.len() >= 1
        &&& self.keys()[0] == Seq::<ComponentId>::empty()
        &&& self.keys().no_duplicates()
        &&& forall|i: int, k: usize|
            0 <= i < self@.len() ==> ((#[trigger] self@[i]).has(k) <==> #[trigger] self.keys()[i].contains(
                ComponentId(k),
            ))
        &&& forall|i: int|
            0 <= i < self@.len() ==> (#[trigger] self@[i]).wf() && self@[i].column_ids()
                == distinct_indices(Seq::empty(), self.keys()[i])
    }

    /// A collection that holds the table without columns and nothing else.
    pub fn new() -> (t: Self)
        ensures
            t.wf(),
            t@.len() == 1,
            t@[0]@ == Seq::<Entity>::empty(),
    {
        let mut t = Tables { tables: Vec::new(), table_ids: Vec::new() };
        let none: Vec<ComponentId> = Vec::new();
        t.tables.push(Table::new(&none));
        t.table_ids.push(none);
        assert(t.keys() =~= seq![Seq::<ComponentId>::empty()]);
        t
    }

    #[verifier::when_used_as_spec(spec_len)]
    pub fn len(&self) -> (n: usize)
        ensures
            n == self@.len(),
    {
        self.tables.len()
    }

    pub open spec fn spec_len(&self) -> usize {
        self@.len() as usize
    }

    pub fn is_empty(&self) -> (b: bool)
        ensures
            b == (self@.len() == 0),
    {
        self.tables.len() == 0
    }

    pub fn get(&self, id: TableId) -> (r: Option<&Table>)
        ensures
            match r {
                Some(t) => id.0 < self@.len() && *t == self@[id.0 as int],
                None => id.0 >= self@.len(),
            },
    {
        if id.0 < self.tables.len() {
            Some(&self.tables[id.0])
        } else {
            None
        }
    }

    /// The table with the given id, which must have been issued here.
    pub fn index(&self, id: TableId) -> (t: &Table)
        requires
            id.0 < self@.len(),
        ensures
            *t == self@[id.0 as int],
    {
        &self.tables[id.0]
    }

    /// The table with the given id, for changing its rows.
    pub fn index_mut(&mut self, id: TableId) -> (t: &mut Table)
        requires
            id.0 < old(self)@.len(),
        ensures
            *t == old(self)@[id.0 as int],
            final(self)@ == old(self)@.update(id.0 as int, *final(t)),
            final(self).keys() == old(self).keys(),
    {
        &mut self.tables[id.0]
    }

    /// Sweeps the ticks of every cell of every table, see
    /// [`Table::check_change_ticks`].
    pub fn check_change_ticks(&mut self, change_tick: u32)
        requires
            old(self).wf(),
        ensures
            final(self).wf(),
            final(self).keys() == old(self).keys(),
            final(self)@.len() == old(self)@.len(),
            forall|t: int|
                0 <= t < old(self)@.len() ==> (#[trigger] final(self)@[t]).swept_from(
                    &old(self)@[t],
                    change_tick,
                ),
    {
        let n: usize = self.tables.len();
        let mut i: usize = 0;
        while i < n
            invariant
                i <= n,
                n == old(self)@.len(),
                old(self).wf(),
                self.keys() == old(self).keys(),
                self@.len() == n,
                forall|j: int| i <= j < n ==> #[trigger] self@[j] == old(self)@[j],
                forall|j: int|
                    0 <= j < i ==> (#[trigger] self@[j]).wf() && self@[j].swept_from(
                        &old(self)@[j],
                        change_tick,
                    ),
            decreases n - i,
        {
            assert(old(self)@[i as int].wf());
            self.index_mut(TableId(i)).check_change_ticks(change_tick);
            i += 1;
        }
        proof {
            assert forall|t: int, k: usize| 0 <= t < self@.len() implies ((#[trigger] self@[t]).has(k)
                <==> #[trigger] self.keys()[t].contains(ComponentId(k))) by {
                assert(old(self)@[t].has(k) <==> old(self).keys()[t].contains(ComponentId(k)));
            }
            assert forall|t: int| 0 <= t < self@.len() implies (#[trigger] self@[t]).wf()
                && self@[t].column_ids() == distinct_indices(Seq::empty(), self.keys()[t]) by {
                assert(old(self)@[t].wf());
            }
        }
    }

    /// Two different tables at once, for moving a row from one to the
    /// other.
    pub fn get_2_mut(&mut self, a: TableId, b: TableId) -> (r: (&mut Table, &mut Table))
        requires
            a.0 < old(self)@.len(),
            b.0 < old(self)@.len(),
            a.0 != b.0,
        ensures
            *r.0 == old(self)@[a.0 as int],
            *r.1 == old(self)@[b.0 as int],
            final(self)@ == old(self)@.update(a.0 as int, *final(r.0)).update(
                b.0 as int,
                *final(r.1),
            ),
            final(self).keys() == old(self).keys(),
    {
        if a.0 > b.0 {
            let (b_slice, a_slice) = self.tables.as_mut_slice().split_at_mut(a.0);
            (&mut a_slice[0], &mut b_slice[b.0])
        } else {
            let (a_slice, b_slice) = self.tables.as_mut_slice().split_at_mut(b.0);
            (&mut a_slice[a.0], &mut b_slice[0])
        }
    }

    /// All tables, in id order.
    pub fn iter(&self) -> (all: &[Table])
        ensures
            all@ == self@,
    {
        self.tables.as_slice()
    }

    /// Gets the id of the table with the given columns, creating the table
    /// if there is none yet. A new table gets the next id and has no rows;
    /// nothing that was there before changes.
    pub fn get_id_or_insert(&mut self, component_ids: Vec<ComponentId>) -> (id: TableId)
        requires
            old(self).wf(),
        ensures
            final(self).wf(),
            id.0 == id_for(old(self).keys(), component_ids@),
            final(self).keys() == register(old(self).keys(), component_ids@),
            forall|i: int| 0 <= i < old(self)@.len() ==> final(self)@[i] == old(self)@[i],
            final(self)@.len() > old(self)@.len() ==> final(self)@.last()@ == Seq::<
                Entity,
            >::empty(),
    {
        let mut i: usize = 0;
        while i < self.table_ids.len()
            invariant
                i <= self.table_ids.len(),
                *self == *old(self),
                self.wf(),
                forall|j: int| 0 <= j < i ==> self.keys()[j] != component_ids@,
            decreases self.table_ids.len() - i,
        {
            if same_components(&self.table_ids[i], &component_ids) {
                assert(self.keys()[i as int] == component_ids@);
                assert(self.keys().index_of(component_ids@) == i);
                return TableId(i);
            }
            i += 1;
        }
        let ghost before = self.keys();
        let id = TableId(self.tables.len());
        self.tables.push(Table::new(&component_ids));
        self.table_ids.push(component_ids);
        assert(self.keys() =~= before.push(component_ids@));
        id
    }
}

impl Default for Tables {
    fn default() -> (t: Self)
        ensures
            t.wf(),
            t@.len() == 1,
    {
        Tables::new()
    }
}

} // verus!
