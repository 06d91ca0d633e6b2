//! Row filters: the per-row part of a query.

use crate::component::ComponentId;
use crate::entity::Entity;
use crate::storage::table::Table;
use vstd::prelude::*;

verus! {

/// The per-row predicate of a query.
///
/// A filter sees the table that a row lives in, the row's entity and index,
/// and the two ticks between which changes count. Whether it is dense or
/// archetypal is fixed for the lifetime of the filter.
pub trait QueryFilter {
    /// Whether the filter only reads table-stored data.
    spec fn dense(&self) -> bool;

    /// Whether the filter accepts every row of every matched archetype, so
    /// that matching archetypes alone decides what a query yields.
    spec fn archetypal(&self) -> bool;

    /// Whether the filter lets the row pass.
    spec fn accepts(
        &self,
        table: &Table,
        entity: Entity,
        table_row: usize,
        last_change_tick: u32,
        change_tick: u32,
    ) -> bool;

    fn is_dense(&self) -> (b: bool)
        ensures
            b == self.dense(),
    ;

    fn is_archetypal(&self) -> (b: bool)
        ensures
            b == self.archetypal(),
    ;

    fn filter_fetch(
        &self,
        table: &Table,
        entity: Entity,
        table_row: usize,
        last_change_tick: u32,
        change_tick: u32,
    ) -> (b: bool)
        requires
            table.wf(),
        ensures
            b == self.accepts(table, entity, table_row, last_change_tick, change_tick),
            self.archetypal() ==> b,
    ;
}

/// The filter that lets every row pass.
#[derive(Debug, Copy, Clone, PartialEq, Eq, Structural)]
pub struct Unfiltered;

impl QueryFilter for Unfiltered {
    open spec fn dense(&self) -> bool {
        true
    }

    open spec fn archetypal(&self) -> bool {
        true
    }

    open spec fn accepts(
        &self,
        table: &Table,
        entity: Entity,
        table_row: usize,
        last_change_tick: u32,
        change_tick: u32,
    ) -> bool {
        true
    }

    fn is_dense(&self) -> (b: bool) {
        true
    }

    fn is_archetypal(&self) -> (b: bool) {
        true
    }

    fn filter_fetch(
        &self,
        table: &Table,
        entity: Entity,
        table_row: usize,
        last_change_tick: u32,
        change_tick: u32,
    ) -> (b: bool) {
        true
    }
}

/// Lets a row pass when its value of one component was changed after the
/// system last ran. A row without such a value does not pass.
#[derive(Debug, Copy, Clone, PartialEq, Eq, Structural)]
pub struct Changed {
    pub component_id: ComponentId,
}

impl QueryFilter for Changed {
    open spec fn dense(&self) -> bool {
        true
    }

    open spec fn archetypal(&self) -> bool {
        false
    }

    open spec fn accepts(
        &self,
        table: &Table,
        entity: Entity,
        table_row: usize,
        last_change_tick: u32,
        change_tick: u32,
    ) -> bool {
        match table.ticks_at(self.component_id.0, table_row) {
            Some(ticks) => ticks.changed.newer_than(last_change_tick, change_tick),
            None => false,
        }
    }

    fn is_dense(&self) -> (b: bool) {
        true
    }

    fn is_archetypal(&self) -> (b: bool) {
        false
    }

    fn filter_fetch(
        &self,
        table: &Table,
        entity: Entity,
        table_row: usize,
        last_change_tick: u32,
        change_tick: u32,
    ) -> (b: bool) {
        match table.get_ticks(self.component_id, table_row) {
            Some(ticks) => ticks.is_changed(last_change_tick, change_tick),
            None => false,
        }
    }
}

/// Lets a row pass when its value of one component was added after the
/// system last ran. A row without such a value does not pass.
#[derive(Debug, Copy, Clone, PartialEq, Eq, Structural)]
pub struct Added {
    pub component_id: ComponentId,
}

impl QueryFilter for Added {
    open spec fn dense(&self) -> bool {
        true
    }

    open spec fn archetypal(&self) -> bool {
        false
    }

    open spec fn accepts(
        &self,
        table: &Table,
        entity: Entity,
        table_row: usize,
        last_change_tick: u32,
        change_tick: u32,
    ) -> bool {
        match table.ticks_at(self.component_id.0, table_row) {
            Some(ticks) => ticks.added.newer_than(last_change_tick, change_tick),
            None => false,
        }
    }

    fn is_dense(&self) -> (b: bool) {
        true
    }

    fn is_archetypal(&self) -> (b: bool) {
        false
    }

    fn filter_fetch(
        &self,
        table: &Table,
        entity: Entity,
        table_row: usize,
        last_change_tick: u32,
        change_tick: u32,
    ) -> (b: bool) {
        match table.get_ticks(self.component_id, table_row) {
            Some(ticks) => ticks.is_added(last_change_tick, change_tick),
            None => false,
        }
    }
}

} // verus!
