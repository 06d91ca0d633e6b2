//! Columns: the values of one component type for the rows of a table.

use crate::component::{clamped_tick, swept_ticks, ComponentTicks, Tick};
use vstd::prelude::*;

verus! {

/// One stored value as plain data: its bytes and its ticks.
pub type CellView = (Seq<u8>, ComponentTicks);

/// One stored value of a type-erased component, with its ticks.
pub struct Cell {
    pub value: Vec<u8>,
    pub ticks: ComponentTicks,
}

impl Cell {
    pub open spec fn view(&self) -> CellView {
        (self.value@, self.ticks)
    }
}

/// The cell a sweep at `now` leaves in place of `cell`: the same value, with
/// swept ticks.
pub open spec fn swept_cell(cell: CellView, now: u32) -> CellView {
    (cell.0, swept_ticks(cell.1, now))
}

/// `swept_cell` for a cell that may be missing.
pub open spec fn swept(cell: Option<CellView>, now: u32) -> Option<CellView> {
    match cell {
        Some(cell) => Some(swept_cell(cell, now)),
        None => None,
    }
}

/// The ticks of a value that is written at `change_tick` over the cell
/// `before`: a value that overwrites one keeps its added tick, a new value
/// is added at `change_tick`.
pub open spec fn ticks_after_write(before: Option<CellView>, change_tick: u32) -> ComponentTicks {
    match before {
        Some(cell) => ComponentTicks { added: cell.1.added, changed: Tick { tick: change_tick } },
        None => ComponentTicks { added: Tick { tick: change_tick }, changed: Tick { tick: change_tick } },
    }
}

/// Whether there is a cell and it has the ticks `ticks`.
pub open spec fn has_ticks(cell: Option<CellView>, ticks: ComponentTicks) -> bool {
    match cell {
        Some(cell) => cell.1 == ticks,
        None => false,
    }
}

/// The values of one component type, one for each row of a table.
pub struct Column {
    cells: Vec<Cell>,
}

impl Column {
    /// The cells, by row.
    pub closed spec fn view(&self) -> Seq<CellView> {
        Seq::new(self.cells@.len(), |row: int| self.cells@[row]@)
    }

    pub fn new() -> (c: Self)
        ensures
            c@ == Seq::<CellView>::empty(),
    {
        let c = Column { cells: Vec::new() };
        assert(c@ =~= Seq::<CellView>::empty());
        c
    }

    #[verifier::when_used_as_spec(spec_len)]
    pub fn len(&self) -> (n: usize)
        ensures
            n == self@.len(),
    {
        self.cells.len()
    }

    pub open spec fn spec_len(&self) -> usize {
        self@.len() as usize
    }

    pub fn is_empty(&self) -> (b: bool)
        ensures
            b == (self@.len() == 0),
    {
        self.cells.len() == 0
    }

    /// Appends a cell for a new last row.
    pub fn push(&mut self, cell: Cell)
        ensures
            final(self)@ == old(self)@.push(cell@),
    {
        self.cells.push(cell);
        assert(self@ =~= old(self)@.push(cell@));
    }

    /// Removes the cell of `row` by moving the last cell into its place, and
    /// hands it out. No other cell moves.
    pub fn swap_remove(&mut self, row: usize) -> (cell: Cell)
        requires
            row < old(self)@.len(),
        ensures
            cell@ == old(self)@[row as int],
            final(self)@ == old(self)@.update(row as int, old(self)@.last()).drop_last(),
    {
        let cell = self.cells.swap_remove(row);
        assert(self@ =~= old(self)@.update(row as int, old(self)@.last()).drop_last());
        cell
    }

    /// The bytes of the value in `row`.
    pub fn get_data(&self, row: usize) -> (bytes: &Vec<u8>)
        requires
            row < self@.len(),
        ensures
            bytes@ == self@[row as int].0,
    {
        &self.cells[row].value
    }

    /// The ticks of the value in `row`.
    pub fn get_ticks(&self, row: usize) -> (ticks: ComponentTicks)
        requires
            row < self@.len(),
        ensures
            ticks == self@[row as int].1,
    {
        self.cells[row].ticks
    }

    /// Overwrites the value in `row`. The changed tick becomes `change_tick`;
    /// the added tick stays, since the row had a value before.
    pub fn replace(&mut self, row: usize, value: Vec<u8>, change_tick: u32)
        requires
            row < old(self)@.len(),
        ensures
            final(self)@ == old(self)@.update(
                row as int,
                (
                    value@,
                    ComponentTicks {
                        added: old(self)@[row as int].1.added,
                        changed: Tick { tick: change_tick },
                    },
                ),
            ),
    {
        let added = self.cells[row].ticks.added;
        self.cells[row] = Cell {
            value,
            ticks: ComponentTicks { added, changed: Tick::new(change_tick) },
        };
        assert(self@ =~= old(self)@.update(
            row as int,
            (value@, ComponentTicks { added, changed: Tick { tick: change_tick } }),
        ));
    }

    /// Sweeps the ticks of every cell: a tick that has fallen behind
    /// `change_tick` by more than the largest age is moved up to that age.
    pub fn check_change_ticks(&mut self, change_tick: u32)
        ensures
            final(self)@.len() == old(self)@.len(),
            forall|row: int|
                0 <= row < final(self)@.len() ==> {
                    let after = #[trigger] final(self)@[row];
                    let before = old(self)@[row];
                    &&& after.0 == before.0
                    &&& after.1.added.tick == clamped_tick(before.1.added.tick, change_tick)
                    &&& after.1.changed.tick == clamped_tick(before.1.changed.tick, change_tick)
                },
    {
        let mut row: usize = 0;
        while row < self.cells.len()
            invariant
                row <= self.cells@.len(),
                self@.len() == old(self)@.len(),
                forall|r: int| row <= r < self@.len() ==> self@[r] == old(self)@[r],
                forall|r: int|
                    0 <= r < row ==> {
                        let after = #[trigger] self@[r];
                        let before = old(self)@[r];
                        &&& after.0 == before.0
                        &&& after.1.added.tick == clamped_tick(before.1.added.tick, change_tick)
                        &&& after.1.changed.tick == clamped_tick(before.1.changed.tick, change_tick)
                    },
            decreases self.cells@.len() - row,
        {
            let ghost earlier = self@;
            let mut ticks = self.cells[row].ticks;
            ticks.check_ticks(change_tick);
            self.cells[row].ticks = ticks;
            assert(self@[row as int] == (earlier[row as int].0, ticks));
            assert forall|r: int| 0 <= r < self@.len() && r != row implies self@[r]
                == earlier[r] by {}
            assert forall|r: int| 0 <= r < row + 1 implies {
                let after = #[trigger] self@[r];
                let before = old(self)@[r];
                &&& after.0 == before.0
                &&& after.1.added.tick == clamped_tick(before.1.added.tick, change_tick)
                &&& after.1.changed.tick == clamped_tick(before.1.changed.tick, change_tick)
            } by {
                if r < row {
                    assert(self@[r] == earlier[r]);
                } else {
                    assert(earlier[r] == old(self)@[r]);
                }
            }
            row += 1;
        }
    }

    /// Removes all cells.
    pub fn clear(&mut self)
        ensures
            final(self)@ == Seq::<CellView>::empty(),
    {
        self.cells.clear();
        assert(self@ =~= Seq::<CellView>::empty());
    }
}

} // verus!
