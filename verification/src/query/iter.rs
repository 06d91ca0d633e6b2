//! Cursors and iterators over the rows that a query matches.

use crate::archetype::{Archetype, ArchetypeId, Archetypes};
use crate::entity::{Entities, Entity};
use crate::query::binomial::{binomial, n_choose_k};
use crate::query::combinations::{
    advance_at, can_advance, combinations, following, initial_positions, is_pivot,
    law_combination_count, lemma_first_and_last, lemma_members, lemma_pivot_unique,
};
use crate::query::filter::QueryFilter;
use crate::query::state::QueryState;
use crate::storage::table::{Table, TableId, Tables};
use crate::world::World;
use vstd::prelude::*;

verus! {

/// One row that a query yields: the entity, and the table and row where its
/// table-stored components live.
#[derive(Debug, Copy, Clone, PartialEq, Eq, Structural)]
pub struct QueryItem {
    pub entity: Entity,
    pub table_id: TableId,
    pub table_row: usize,
}

/// The items of the rows `from..` of `table` that pass `filter`, in row order.
pub open spec fn dense_batch<F: QueryFilter>(
    filter: &F,
    table: &Table,
    table_id: TableId,
    from: int,
    ticks: (u32, u32),
) -> Seq<QueryItem>
    decreases table@.len() - from,
{
    if from < 0 || from >= table@.len() {
        Seq::empty()
    } else {
        let rest = dense_batch(filter, table, table_id, from + 1, ticks);
        if filter.accepts(table, table@[from], from as usize, ticks.0, ticks.1) {
            seq![QueryItem { entity: table@[from], table_id, table_row: from as usize }] + rest
        } else {
            rest
        }
    }
}

/// The items of the entities `from..` of `archetype` that pass `filter`, in
/// the order of the archetype's entity list.
pub open spec fn sparse_batch<F: QueryFilter>(
    filter: &F,
    archetype: &Archetype,
    table: &Table,
    from: int,
    ticks: (u32, u32),
) -> Seq<QueryItem>
    decreases archetype@.len() - from,
{
    if from < 0 || from >= archetype@.len() {
        Seq::empty()
    } else {
        let rest = sparse_batch(filter, archetype, table, from + 1, ticks);
        let row = archetype@[from];
        if filter.accepts(table, row.entity, row.table_row, ticks.0, ticks.1) {
            seq![
                QueryItem {
                    entity: row.entity,
                    table_id: archetype.spec_table_id(),
                    table_row: row.table_row,
                },
            ] + rest
        } else {
            rest
        }
    }
}

/// The items of the tables `ids[from..to]`, table after table.
pub open spec fn dense_rest<F: QueryFilter>(
    filter: &F,
    tables: Seq<Table>,
    ids: Seq<TableId>,
    from: int,
    to: int,
    ticks: (u32, u32),
) -> Seq<QueryItem>
    decreases to - from,
{
    if from < 0 || from >= to {
        Seq::empty()
    } else {
        dense_batch(filter, &tables[ids[from].0 as int], ids[from], 0, ticks) + dense_rest(
            filter,
            tables,
            ids,
            from + 1,
            to,
            ticks,
        )
    }
}

/// The items of the archetypes `indices[from..to]`, archetype after
/// archetype.
pub open spec fn sparse_rest<F: QueryFilter>(
    filter: &F,
    archetypes: Seq<Archetype>,
    tables: Seq<Table>,
    indices: Seq<usize>,
    from: int,
    to: int,
    ticks: (u32, u32),
) -> Seq<QueryItem>
    decreases to - from,
{
    if from < 0 || from >= to {
        Seq::empty()
    } else {
        let archetype = archetypes[indices[from] as int];
        sparse_batch(filter, &archetype, &tables[archetype.spec_table_id().0 as int], 0, ticks)
            + sparse_rest(filter, archetypes, tables, indices, from + 1, to, ticks)
    }
}

/// Everything that a fresh cursor over `state` yields, in order: the matched
/// tables row by row for a dense query, the matched archetypes entity by
/// entity for a sparse one.
pub open spec fn all_items<F: QueryFilter>(
    state: &QueryState<F>,
    tables: &Tables,
    archetypes: &Archetypes,
    ticks: (u32, u32),
) -> Seq<QueryItem> {
    if state.dense() {
        dense_rest(
            &state.spec_filter(),
            tables@,
            state.table_ids(),
            0,
            state.table_ids().len() as int,
            ticks,
        )
    } else {
        sparse_rest(
            &state.spec_filter(),
            archetypes@,
            tables@,
            state.archetype_indices(),
            0,
            state.archetype_indices().len() as int,
            ticks,
        )
    }
}

/// A position in a list of matched ids: the ids `next..end` are still to
/// come.
#[derive(Debug, Copy, Clone, PartialEq, Eq, Structural)]
pub struct IdIter {
    pub next: usize,
    pub end: usize,
}

impl IdIter {
    /// Steps to the next position, if there is one.
    pub fn advance(&mut self) -> (position: Option<usize>)
        ensures
            old(self).next < old(self).end ==> position == Some(old(self).next) && final(self).next
                == old(self).next + 1 && final(self).end == old(self).end,
            old(self).next >= old(self).end ==> position is None && *final(self) == *old(self),
    {
        if self.next < self.end {
            let position: usize = self.next;
            self.next = position + 1;
            Some(position)
        } else {
            None
        }
    }
}

/// One of two values, depending on whether a query is dense or sparse. The
/// choice is made once, when a cursor is set up.
#[derive(Debug, Copy, Clone)]
pub enum QuerySwitch<A, B> {
    Dense(A),
    Sparse(B),
}

impl<A, B> QuerySwitch<A, B> {
    /// The dense variant.
    pub fn new_dense(dense: A) -> (s: Self)
        ensures
            s == QuerySwitch::<A, B>::Dense(dense),
    {
        QuerySwitch::Dense(dense)
    }

    /// The sparse variant.
    pub fn new_sparse(sparse: B) -> (s: Self)
        ensures
            s == QuerySwitch::<A, B>::Sparse(sparse),
    {
        QuerySwitch::Sparse(sparse)
    }

    /// The value of the dense variant, for changing it.
    pub fn dense(&mut self) -> (a: &mut A)
        requires
            *old(self) is Dense,
        ensures
            *a == old(self)->Dense_0,
            *final(self) == QuerySwitch::<A, B>::Dense(*final(a)),
    {
        match self {
            QuerySwitch::Dense(a) => a,
            QuerySwitch::Sparse(_) => vstd::pervasive::unreached(),
        }
    }

    /// The value of the sparse variant, for changing it.
    pub fn sparse(&mut self) -> (b: &mut B)
        requires
            *old(self) is Sparse,
        ensures
            *b == old(self)->Sparse_0,
            *final(self) == QuerySwitch::<A, B>::Sparse(*final(b)),
    {
        match self {
            QuerySwitch::Sparse(b) => b,
            QuerySwitch::Dense(_) => vstd::pervasive::unreached(),
        }
    }
}

/// The state of one walk over the rows that a query matches.
///
/// A cursor is before its first batch, within a batch, or exhausted. A batch
/// is one table (dense query) or one archetype (sparse query). The cursor
/// keeps ids and indices only, and looks the table or archetype up again
/// whenever it needs it.
#[derive(Debug, Copy, Clone)]
pub struct QueryIterationCursor {
    id_iter: QuerySwitch<IdIter, IdIter>,
    entities: QuerySwitch<Option<TableId>, Option<ArchetypeId>>,
    // length of the table or of the archetype, depending on whether the query is dense
    current_len: usize,
    // either table row or archetype index, depending on whether the query is dense
    current_index: usize,
    last_change_tick: u32,
    change_tick: u32,
}

impl QueryIterationCursor {
    /// The ticks between which changes count for the filter.
    pub closed spec fn ticks(&self) -> (u32, u32) {
        (self.last_change_tick, self.change_tick)
    }

    /// The cursor fits the query and the world: it is of the query's kind,
    /// its position lies within the matched ids, and its batch, if it has
    /// one, is as long as the cursor thinks.
    pub closed spec fn wf<F: QueryFilter>(
        &self,
        tables: &Tables,
        archetypes: &Archetypes,
        state: &QueryState<F>,
    ) -> bool {
        &&& self.current_index <= self.current_len
        &&& match (self.id_iter, self.entities) {
            (QuerySwitch::Dense(ids), QuerySwitch::Dense(bound)) => {
                &&& state.dense()
                &&& ids.next <= ids.end <= state.table_ids().len()
                &&& match bound {
                    Some(table_id) => table_id.0 < tables@.len() && tables@[table_id.0 as int].wf()
                        && self.current_len == tables@[table_id.0 as int]@.len(),
                    None => self.current_len == 0,
                }
            },
            (QuerySwitch::Sparse(ids), QuerySwitch::Sparse(bound)) => {
                &&& !state.dense()
                &&& ids.next <= ids.end <= state.archetype_indices().len()
                &&& match bound {
                    Some(id) => id.spec_index() < archetypes@.len()
                        && archetypes@[id.spec_index() as int].spec_table_id().0
                        < tables@.len()
                        && tables@[archetypes@[id.spec_index() as int].spec_table_id().0 as int].wf()
                        && self.current_len == archetypes@[id.spec_index() as int]@.len(),
                    None => self.current_len == 0,
                }
            },
            _ => false,
        }
    }

    /// What is left of the current batch.
    pub closed spec fn batch_remaining<F: QueryFilter>(
        &self,
        tables: &Tables,
        archetypes: &Archetypes,
        state: &QueryState<F>,
    ) -> Seq<QueryItem> {
        match self.entities {
            QuerySwitch::Dense(Some(table_id)) => dense_batch(
                &state.spec_filter(),
                &tables@[table_id.0 as int],
                table_id,
                self.current_index as int,
                self.ticks(),
            ),
            QuerySwitch::Sparse(Some(id)) => sparse_batch(
                &state.spec_filter(),
                &archetypes@[id.spec_index() as int],
                &tables@[archetypes@[id.spec_index() as int].spec_table_id().0 as int],
                self.current_index as int,
                self.ticks(),
            ),
            _ => Seq::empty(),
        }
    }

    /// Everything the cursor will still yield, in order.
    pub closed spec fn remaining<F: QueryFilter>(
        &self,
        tables: &Tables,
        archetypes: &Archetypes,
        state: &QueryState<F>,
    ) -> Seq<QueryItem> {
        self.batch_remaining(tables, archetypes, state) + match self.id_iter {
            QuerySwitch::Dense(ids) => dense_rest(
                &state.spec_filter(),
                tables@,
                state.table_ids(),
                ids.next as int,
                ids.end as int,
                self.ticks(),
            ),
            QuerySwitch::Sparse(ids) => sparse_rest(
                &state.spec_filter(),
                archetypes@,
                tables@,
                state.archetype_indices(),
                ids.next as int,
                ids.end as int,
                self.ticks(),
            ),
        }
    }

    /// The item of the row just before the cursor's position in its batch,
    /// whether or not the filter lets that row pass.
    pub closed spec fn last_item(&self, tables: &Tables, archetypes: &Archetypes) -> Option<
        QueryItem,
    > {
        if self.current_index > 0 {
            match self.entities {
                QuerySwitch::Dense(Some(table_id)) => Some(
                    QueryItem {
                        entity: tables@[table_id.0 as int]@[self.current_index - 1],
                        table_id,
                        table_row: (self.current_index - 1) as usize,
                    },
                ),
                QuerySwitch::Sparse(Some(id)) => {
                    let archetype = archetypes@[id.spec_index() as int];
                    let row = archetype@[self.current_index - 1];
                    Some(
                        QueryItem {
                            entity: row.entity,
                            table_id: archetype.spec_table_id(),
                            table_row: row.table_row,
                        },
                    )
                },
                _ => None,
            }
        } else {
            None
        }
    }

    /// A copy of the cursor at the same position.
    pub fn clone_cursor(&self) -> (c: Self)
        ensures
            c == *self,
    {
        *self
    }

    /// A cursor of the query's kind that yields nothing.
    pub fn init_empty<F: QueryFilter>(
        world: &World,
        query_state: &QueryState<F>,
        last_change_tick: u32,
        change_tick: u32,
    ) -> (c: Self)
        ensures
            c.wf(&world.storages.tables, &world.archetypes, query_state),
            c.ticks() == (last_change_tick, change_tick),
            c.remaining(&world.storages.tables, &world.archetypes, query_state) == Seq::<
                QueryItem,
            >::empty(),
            c.last_item(&world.storages.tables, &world.archetypes) is None,
            c.batch_valid(&world.storages.tables, &world.archetypes),
    {
        let found = Self::init(world, query_state, last_change_tick, change_tick);
        let c = QueryIterationCursor {
            id_iter: if query_state.is_dense() {
                QuerySwitch::new_dense(IdIter { next: 0, end: 0 })
            } else {
                QuerySwitch::new_sparse(IdIter { next: 0, end: 0 })
            },
            entities: found.entities,
            current_len: found.current_len,
            current_index: found.current_index,
            last_change_tick: found.last_change_tick,
            change_tick: found.change_tick,
        };
        c
    }

    /// A cursor before the first batch of the query.
    pub fn init<F: QueryFilter>(
        world: &World,
        query_state: &QueryState<F>,
        last_change_tick: u32,
        change_tick: u32,
    ) -> (c: Self)
        ensures
            c.wf(&world.storages.tables, &world.archetypes, query_state),
            c.ticks() == (last_change_tick, change_tick),
            c.remaining(&world.storages.tables, &world.archetypes, query_state) == all_items(
                query_state,
                &world.storages.tables,
                &world.archetypes,
                (last_change_tick, change_tick),
            ),
            c.last_item(&world.storages.tables, &world.archetypes) is None,
            c.batch_valid(&world.storages.tables, &world.archetypes),
            c.entities_unbound(),
    {
        let dense = query_state.is_dense();
        QueryIterationCursor {
            id_iter: if dense {
                QuerySwitch::new_dense(IdIter { next: 0, end: query_state.matched_table_ids().len() })
            } else {
                QuerySwitch::new_sparse(
                    IdIter { next: 0, end: query_state.matched_archetype_ids().len() },
                )
            },
            entities: if dense {
                QuerySwitch::new_dense(None)
            } else {
                QuerySwitch::new_sparse(None)
            },
            current_len: 0,
            current_index: 0,
            last_change_tick,
            change_tick,
        }
    }

    /// The cursor has no batch yet.
    pub closed spec fn entities_unbound(&self) -> bool {
        self.current_len == 0 && self.current_index == 0 && match self.entities {
            QuerySwitch::Dense(bound) => bound is None,
            QuerySwitch::Sparse(bound) => bound is None,
        }
    }

    /// The cursor's batch, if it has one, exists in the world and holds the
    /// cursor's position. Every well-formed cursor has a valid batch.
    pub closed spec fn batch_valid(&self, tables: &Tables, archetypes: &Archetypes) -> bool {
        match self.entities {
            QuerySwitch::Dense(Some(table_id)) => table_id.0 < tables@.len() && self.current_index
                <= tables@[table_id.0 as int]@.len(),
            QuerySwitch::Sparse(Some(id)) => id.spec_index() < archetypes@.len()
                && self.current_index <= archetypes@[id.spec_index() as int]@.len(),
            _ => true,
        }
    }

    /// Retrieves the item returned from the most recent `next` call again.
    pub fn peek_last(&self, tables: &Tables, archetypes: &Archetypes) -> (r: Option<QueryItem>)
        requires
            self.batch_valid(tables, archetypes),
        ensures
            r == self.last_item(tables, archetypes),
    {
        if self.current_index > 0 {
            let index: usize = self.current_index - 1;
            match self.entities {
                QuerySwitch::Dense(Some(table_id)) => {
                    let entity = tables.index(table_id).entities()[index];
                    Some(QueryItem { entity, table_id, table_row: index })
                },
                QuerySwitch::Sparse(Some(id)) => {
                    let archetype = archetypes.index(id);
                    let archetype_entity = archetype.entities()[index];
                    Some(
                        QueryItem {
                            entity: archetype_entity.entity,
                            table_id: archetype.table_id(),
                            table_row: archetype_entity.table_row,
                        },
                    )
                },
                _ => None,
            }
        } else {
            None
        }
    }

    /// How many matched ids and rows of the current batch lie ahead.
    pub closed spec fn ids_ahead(&self) -> int {
        match self.id_iter {
            QuerySwitch::Dense(ids) => ids.end - ids.next,
            QuerySwitch::Sparse(ids) => ids.end - ids.next,
        }
    }

    /// Steps to the next row that passes the filter and returns its item.
    ///
    /// Within a batch the rows are tried in order. When the batch is used
    /// up, the next matched table or archetype becomes the batch. When there
    /// is none, the cursor is exhausted and stays so: every later call
    /// returns `None` too.
    pub fn next<F: QueryFilter>(
        &mut self,
        tables: &Tables,
        archetypes: &Archetypes,
        query_state: &QueryState<F>,
    ) -> (r: Option<QueryItem>)
        requires
            old(self).wf(tables, archetypes, query_state),
            query_state.valid_for(archetypes, tables),
        ensures
            final(self).wf(tables, archetypes, query_state),
            final(self).batch_valid(tables, archetypes),
            final(self).ticks() == old(self).ticks(),
            match r {
                Some(item) => old(self).remaining(tables, archetypes, query_state) == seq![item]
                    + final(self).remaining(tables, archetypes, query_state)
                        && final(self).last_item(tables, archetypes) == Some(item),
                None => old(self).remaining(tables, archetypes, query_state) == Seq::<
                    QueryItem,
                >::empty() && final(self).remaining(tables, archetypes, query_state) == Seq::<
                    QueryItem,
                >::empty(),
            },
    {
        let ghost ticks = self.ticks();
        let ghost filter = query_state.spec_filter();
        if query_state.is_dense() {
            loop
                invariant
                    self.wf(tables, archetypes, query_state),
                    query_state.valid_for(archetypes, tables),
                    query_state.dense(),
                    self.ticks() == old(self).ticks(),
                    ticks == self.ticks(),
                    filter == query_state.spec_filter(),
                    self.remaining(tables, archetypes, query_state) == old(self).remaining(
                        tables,
                        archetypes,
                        query_state,
                    ),
                decreases self.ids_ahead(), self.current_len - self.current_index,
            {
                // we are on the beginning of the query, or finished processing a table, so skip to the next
                if self.current_index == self.current_len {
                    let ghost before = *self;
                    let position: usize = match self.id_iter.dense().advance() {
                        Some(position) => position,
                        None => {
                            assert(self.remaining(tables, archetypes, query_state) =~= Seq::<
                                QueryItem,
                            >::empty());
                            return None;
                        },
                    };
                    let table_id = query_state.matched_table_ids()[position];
                    assert(table_id == query_state.table_ids()[position as int]);
                    let table = tables.index(table_id);
                    self.entities = QuerySwitch::new_dense(Some(table_id));
                    self.current_len = table.entity_count();
                    self.current_index = 0;
                    assert(before.batch_remaining(tables, archetypes, query_state) =~= Seq::<
                        QueryItem,
                    >::empty());
                    assert(self.remaining(tables, archetypes, query_state) =~= before.remaining(
                        tables,
                        archetypes,
                        query_state,
                    ));
                    continue ;
                }
                let table_id = match self.entities {
                    QuerySwitch::Dense(Some(table_id)) => table_id,
                    _ => vstd::pervasive::unreached(),
                };
                let table = tables.index(table_id);
                let entity = table.entities()[self.current_index];
                let ghost rest = dense_batch(
                    &filter,
                    table,
                    table_id,
                    self.current_index + 1,
                    ticks,
                );
                if !query_state.filter().filter_fetch(
                    table,
                    entity,
                    self.current_index,
                    self.last_change_tick,
                    self.change_tick,
                ) {
                    self.current_index += 1;
                    continue ;
                }
                let item = QueryItem { entity, table_id, table_row: self.current_index };
                let ghost before = *self;
                self.current_index += 1;
                assert(before.remaining(tables, archetypes, query_state) =~= seq![item]
                    + self.remaining(tables, archetypes, query_state));
                return Some(item);
            }
        } else {
            loop
                invariant
                    self.wf(tables, archetypes, query_state),
                    query_state.valid_for(archetypes, tables),
                    !query_state.dense(),
                    self.ticks() == old(self).ticks(),
                    ticks == self.ticks(),
                    filter == query_state.spec_filter(),
                    self.remaining(tables, archetypes, query_state) == old(self).remaining(
                        tables,
                        archetypes,
                        query_state,
                    ),
                decreases self.ids_ahead(), self.current_len - self.current_index,
            {
                if self.current_index == self.current_len {
                    let ghost before = *self;
                    let position: usize = match self.id_iter.sparse().advance() {
                        Some(position) => position,
                        None => {
                            assert(self.remaining(tables, archetypes, query_state) =~= Seq::<
                                QueryItem,
                            >::empty());
                            return None;
                        },
                    };
                    let archetype_id = query_state.matched_archetype_ids()[position];
                    assert(archetype_id.spec_index() == query_state.archetype_indices()[position as int]);
                    let archetype = archetypes.index(archetype_id);
                    self.entities = QuerySwitch::new_sparse(Some(archetype_id));
                    self.current_len = archetype.len();
                    self.current_index = 0;
                    assert(before.batch_remaining(tables, archetypes, query_state) =~= Seq::<
                        QueryItem,
                    >::empty());
                    assert(self.remaining(tables, archetypes, query_state) =~= before.remaining(
                        tables,
                        archetypes,
                        query_state,
                    ));
                    continue ;
                }
                let archetype_id = match self.entities {
                    QuerySwitch::Sparse(Some(archetype_id)) => archetype_id,
                    _ => vstd::pervasive::unreached(),
                };
                let archetype = archetypes.index(archetype_id);
                let table = tables.index(archetype.table_id());
                let archetype_entity = archetype.entities()[self.current_index];
                if !query_state.filter().filter_fetch(
                    table,
                    archetype_entity.entity,
                    archetype_entity.table_row,
                    self.last_change_tick,
                    self.change_tick,
                ) {
                    self.current_index += 1;
                    continue ;
                }
                let item = QueryItem {
                    entity: archetype_entity.entity,
                    table_id: archetype.table_id(),
                    table_row: archetype_entity.table_row,
                };
                let ghost before = *self;
                self.current_index += 1;
                assert(before.remaining(tables, archetypes, query_state) =~= seq![item]
                    + self.remaining(tables, archetypes, query_state));
                return Some(item);
            }
        }
    }
}

/// The number of entities in the archetypes `indices`.
pub open spec fn total_entities(archetypes: Seq<Archetype>, indices: Seq<usize>) -> nat
    decreases indices.len(),
{
    if indices.len() == 0 {
        0
    } else {
        total_entities(archetypes, indices.drop_last()) + archetypes[indices.last() as int]@.len()
    }
}

/// The entities of a prefix of `indices` are at most those of all of it.
pub proof fn lemma_total_entities_prefix(archetypes: Seq<Archetype>, indices: Seq<usize>, n: int)
    requires
        0 <= n <= indices.len(),
    ensures
        total_entities(archetypes, indices.take(n)) <= total_entities(archetypes, indices),
    decreases indices.len() - n,
{
    if n < indices.len() {
        lemma_total_entities_prefix(archetypes, indices, n + 1);
        assert(indices.take(n + 1).drop_last() =~= indices.take(n));
    } else {
        assert(indices.take(n) =~= indices);
    }
}

/// Counts the entities of all matched archetypes.
fn count_matched_entities<F: QueryFilter>(
    query_state: &QueryState<F>,
    archetypes: &Archetypes,
) -> (n: usize)
    requires
        forall|i: int|
            0 <= i < query_state.archetype_indices().len()
                ==> (#[trigger] query_state.archetype_indices()[i]) < archetypes@.len(),
        total_entities(archetypes@, query_state.archetype_indices()) <= usize::MAX,
    ensures
        n == total_entities(archetypes@, query_state.archetype_indices()),
{
    let ids = query_state.matched_archetype_ids();
    let ghost indices = query_state.archetype_indices();
    let mut n: usize = 0;
    let mut i: usize = 0;
    while i < ids.len()
        invariant
            i <= ids@.len(),
            ids@.len() == indices.len(),
            indices == query_state.archetype_indices(),
            forall|j: int| 0 <= j < ids@.len() ==> (#[trigger] ids@[j]).spec_index() == indices[j],
            forall|j: int| 0 <= j < indices.len() ==> (#[trigger] indices[j]) < archetypes@.len(),
            total_entities(archetypes@, indices) <= usize::MAX,
            n == total_entities(archetypes@, indices.take(i as int)),
        decreases ids@.len() - i,
    {
        proof {
            lemma_total_entities_prefix(archetypes@, indices, i + 1);
            assert(indices.take(i + 1).drop_last() =~= indices.take(i as int));
        }
        n += archetypes.index(ids[i]).len();
        i += 1;
    }
    assert(indices.take(ids@.len() as int) =~= indices);
    n
}

/// An iterator over the rows that a query matches.
pub struct QueryIter<'w, 's, F: QueryFilter> {
    tables: &'w Tables,
    archetypes: &'w Archetypes,
    query_state: &'s QueryState<F>,
    cursor: QueryIterationCursor,
}

impl<'w, 's, F: QueryFilter> QueryIter<'w, 's, F> {
    #[verifier::type_invariant]
    spec fn inv(self) -> bool {
        &&& self.cursor.wf(self.tables, self.archetypes, self.query_state)
        &&& self.query_state.valid_for(self.archetypes, self.tables)
    }

    /// The items that are still to come, in order.
    pub closed spec fn view(&self) -> Seq<QueryItem> {
        self.cursor.remaining(self.tables, self.archetypes, self.query_state)
    }

    pub closed spec fn spec_archetypes(&self) -> &Archetypes {
        self.archetypes
    }

    pub closed spec fn spec_query_state(&self) -> &QueryState<F> {
        self.query_state
    }

    /// An iterator that yields every item of the query, see [`all_items`].
    pub fn new(
        world: &'w World,
        query_state: &'s QueryState<F>,
        last_change_tick: u32,
        change_tick: u32,
    ) -> (it: Self)
        requires
            query_state.valid_for(&world.archetypes, &world.storages.tables),
        ensures
            it@ == all_items(
                query_state,
                &world.storages.tables,
                &world.archetypes,
                (last_change_tick, change_tick),
            ),
            it.spec_archetypes() == &world.archetypes,
            it.spec_query_state() == query_state,
    {
        QueryIter {
            query_state,
            tables: &world.storages().tables,
            archetypes: &world.archetypes,
            cursor: QueryIterationCursor::init(world, query_state, last_change_tick, change_tick),
        }
    }

    /// The next item, or `None` when the iterator is exhausted. An exhausted
    /// iterator stays exhausted.
    pub fn next(&mut self) -> (r: Option<QueryItem>)
        ensures
            final(self).spec_archetypes() == old(self).spec_archetypes(),
            final(self).spec_query_state() == old(self).spec_query_state(),
            match r {
                Some(item) => old(self)@ == seq![item] + final(self)@,
                None => old(self)@ == Seq::<QueryItem>::empty() && final(self)@ == Seq::<
                    QueryItem,
                >::empty(),
            },
    {
        proof {
            use_type_invariant(&*self);
        }
        let mut cursor = self.cursor;
        let r = cursor.next(self.tables, self.archetypes, self.query_state);
        self.cursor = cursor;
        r
    }

    /// Bounds on the number of items of the query: at most the number of
    /// entities in the matched archetypes, and exactly that many when the
    /// filter is archetypal.
    pub fn size_hint(&self) -> (r: (usize, Option<usize>))
        requires
            total_entities(self.spec_archetypes()@, self.spec_query_state().archetype_indices())
                <= usize::MAX,
        ensures
            r.1 == Some(
                total_entities(
                    self.spec_archetypes()@,
                    self.spec_query_state().archetype_indices(),
                ) as usize,
            ),
            r.0 == if self.spec_query_state().spec_filter().archetypal() {
                total_entities(
                    self.spec_archetypes()@,
                    self.spec_query_state().archetype_indices(),
                ) as usize
            } else {
                0usize
            },
    {
        proof {
            use_type_invariant(self);
        }
        let max_size = count_matched_entities(self.query_state, self.archetypes);
        let archetype_query = self.query_state.filter().is_archetypal();
        let min_size = if archetype_query {
            max_size
        } else {
            0
        };
        (min_size, Some(max_size))
    }

    /// The number of entities in the matched archetypes, which for an
    /// archetypal filter is the number of items of the query.
    pub fn len(&self) -> (n: usize)
        requires
            self.spec_query_state().spec_filter().archetypal(),
            total_entities(self.spec_archetypes()@, self.spec_query_state().archetype_indices())
                <= usize::MAX,
        ensures
            n == total_entities(
                self.spec_archetypes()@,
                self.spec_query_state().archetype_indices(),
            ),
    {
        proof {
            use_type_invariant(self);
        }
        count_matched_entities(self.query_state, self.archetypes)
    }
}

/// Every location that `entities` records names an archetype that exists
/// and a position in that archetype's entity list.
pub open spec fn locations_valid(entities: &Entities, archetypes: &Archetypes) -> bool {
    forall|i: int|
        0 <= i < entities@.len() && (#[trigger] entities@[i]).location is Some ==> {
            let location = entities@[i].location->0;
            &&& location.archetype_id.spec_index() < archetypes@.len()
            &&& location.index < archetypes@[location.archetype_id.spec_index() as int]@.len()
        }
}

/// The item that the query yields for `entity`, if it yields one: the entity
/// must be live and placed in a matched archetype, and its row must pass the
/// filter.
pub open spec fn item_of<F: QueryFilter>(
    state: &QueryState<F>,
    entities: &Entities,
    tables: &Tables,
    archetypes: &Archetypes,
    entity: Entity,
    ticks: (u32, u32),
) -> Option<QueryItem> {
    match entities.location_of(entity) {
        Some(location) => {
            let archetype = archetypes@[location.archetype_id.spec_index() as int];
            let table = tables@[archetype.spec_table_id().0 as int];
            let table_row = archetype@[location.index as int].table_row;
            if state.archetype_indices().contains(location.archetype_id.spec_index())
                && state.spec_filter().accepts(&table, entity, table_row, ticks.0, ticks.1) {
                Some(QueryItem { entity, table_id: archetype.spec_table_id(), table_row })
            } else {
                None
            }
        },
        None => None,
    }
}

/// The items that the query yields for the entities `list[from..]`, in the
/// order of the list. Entities without an item are skipped.
pub open spec fn items_of<F: QueryFilter>(
    state: &QueryState<F>,
    entities: &Entities,
    tables: &Tables,
    archetypes: &Archetypes,
    list: Seq<Entity>,
    from: int,
    ticks: (u32, u32),
) -> Seq<QueryItem>
    decreases list.len() - from,
{
    if from < 0 || from >= list.len() {
        Seq::empty()
    } else {
        let rest = items_of(state, entities, tables, archetypes, list, from + 1, ticks);
        match item_of(state, entities, tables, archetypes, list[from], ticks) {
            Some(item) => seq![item] + rest,
            None => rest,
        }
    }
}

/// An iterator over the query items of a list of entities.
///
/// Items are returned in the order of the list. Entities that are not live
/// or do not match the query are skipped.
pub struct QueryManyIter<'w, 's, F: QueryFilter> {
    entity_list: Vec<Entity>,
    position: usize,
    entities: &'w Entities,
    tables: &'w Tables,
    archetypes: &'w Archetypes,
    query_state: &'s QueryState<F>,
    last_change_tick: u32,
    change_tick: u32,
}

impl<'w, 's, F: QueryFilter> QueryManyIter<'w, 's, F> {
    #[verifier::type_invariant]
    spec fn inv(self) -> bool {
        &&& self.position <= self.entity_list@.len()
        &&& self.query_state.wf()
        &&& self.query_state.valid_for(self.archetypes, self.tables)
        &&& locations_valid(self.entities, self.archetypes)
    }

    /// The items that are still to come, in order.
    pub closed spec fn view(&self) -> Seq<QueryItem> {
        items_of(
            self.query_state,
            self.entities,
            self.tables,
            self.archetypes,
            self.entity_list@,
            self.position as int,
            (self.last_change_tick, self.change_tick),
        )
    }

    /// The entities of the list that have not been looked at yet.
    pub closed spec fn entities_ahead(&self) -> Seq<Entity> {
        self.entity_list@.skip(self.position as int)
    }

    /// The item that the query yields for `entity`, if it yields one, see
    /// [`item_of`].
    pub closed spec fn item_for(&self, entity: Entity) -> Option<QueryItem> {
        item_of(
            self.query_state,
            self.entities,
            self.tables,
            self.archetypes,
            entity,
            (self.last_change_tick, self.change_tick),
        )
    }

    /// Whether entity number `n` of the entities ahead is the first one
    /// with an item, and `item` is its item.
    pub open spec fn first_item_at(&self, n: int, item: QueryItem) -> bool {
        &&& 0 <= n < self.entities_ahead().len()
        &&& forall|j: int| 0 <= j < n ==> (#[trigger] self.item_for(self.entities_ahead()[j])) is None
        &&& self.item_for(self.entities_ahead()[n]) == Some(item)
    }

    /// Whether none of the entities ahead has an item.
    pub open spec fn no_item_ahead(&self) -> bool {
        forall|j: int|
            0 <= j < self.entities_ahead().len() ==> (#[trigger] self.item_for(
                self.entities_ahead()[j],
            )) is None
    }

    /// An iterator over the items of `entity_list`.
    pub fn new(
        world: &'w World,
        query_state: &'s QueryState<F>,
        entity_list: Vec<Entity>,
        last_change_tick: u32,
        change_tick: u32,
    ) -> (it: Self)
        requires
            query_state.wf(),
            query_state.valid_for(&world.archetypes, &world.storages.tables),
            locations_valid(&world.entities, &world.archetypes),
        ensures
            it@ == items_of(
                query_state,
                &world.entities,
                &world.storages.tables,
                &world.archetypes,
                entity_list@,
                0,
                (last_change_tick, change_tick),
            ),
            it.entities_ahead() == entity_list@,
            forall|entity: Entity| #[trigger]
                it.item_for(entity) == item_of(
                    query_state,
                    &world.entities,
                    &world.storages.tables,
                    &world.archetypes,
                    entity,
                    (last_change_tick, change_tick),
                ),
    {
        QueryManyIter {
            query_state,
            entities: &world.entities,
            archetypes: &world.archetypes,
            tables: &world.storages.tables,
            entity_list,
            position: 0,
            last_change_tick,
            change_tick,
        }
    }

    /// Get next result from the query.
    ///
    /// The list is used up exactly as far as the entity whose item is
    /// returned: the entities before it have no item, and the ones behind it
    /// are still ahead. When nothing is returned, no entity ahead had an
    /// item, and none is left.
    pub fn fetch_next(&mut self) -> (r: Option<QueryItem>)
        ensures
            match r {
                Some(item) => old(self)@ == seq![item] + final(self)@,
                None => old(self)@ == Seq::<QueryItem>::empty() && final(self)@ == Seq::<
                    QueryItem,
                >::empty(),
            },
            match r {
                Some(item) => exists|n: int| #[trigger]
                    old(self).first_item_at(n, item) && final(self).entities_ahead()
                        == old(self).entities_ahead().skip(n + 1),
                None => old(self).no_item_ahead() && final(self).entities_ahead() == Seq::<
                    Entity,
                >::empty(),
            },
            forall|entity: Entity| #[trigger]
                final(self).item_for(entity) == old(self).item_for(entity),
    {
        proof {
            use_type_invariant(&*self);
        }
        let mut position: usize = self.position;
        let ghost ticks = (self.last_change_tick, self.change_tick);
        let mut found: Option<QueryItem> = None;
        while position < self.entity_list.len() && found.is_none()
            invariant
                self.position <= position <= self.entity_list@.len(),
                *self == *old(self),
                ticks == (self.last_change_tick, self.change_tick),
                self.query_state.wf(),
                self.query_state.valid_for(self.archetypes, self.tables),
                locations_valid(self.entities, self.archetypes),
                forall|j: int|
                    self.position <= j < position - (if found is Some {
                        1int
                    } else {
                        0int
                    }) ==> (#[trigger] self.item_for(self.entity_list@[j])) is None,
                found matches Some(item) ==> position > self.position && self.item_for(
                    self.entity_list@[position - 1],
                ) == Some(item),
                match found {
                    Some(item) => old(self)@ == seq![item] + items_of(
                        self.query_state,
                        self.entities,
                        self.tables,
                        self.archetypes,
                        self.entity_list@,
                        position as int,
                        ticks,
                    ),
                    None => old(self)@ == items_of(
                        self.query_state,
                        self.entities,
                        self.tables,
                        self.archetypes,
                        self.entity_list@,
                        position as int,
                        ticks,
                    ),
                },
            decreases self.entity_list@.len() - position,
        {
            let entity = self.entity_list[position];
            position += 1;
            let location = match self.entities.get(entity) {
                Some(location) => location,
                None => {
                    continue ;
                },
            };
            if !self.query_state.matches_archetype(location.archetype_id.index()) {
                continue ;
            }
            proof {
                let k = choose|k: int|
                    0 <= k < self.query_state.archetype_indices().len()
                        && self.query_state.archetype_indices()[k]
                        == location.archetype_id.spec_index();
                assert(self.query_state.archetype_indices()[k] < self.archetypes@.len());
                assert(self.entities@[entity.index as int].location is Some);
            }
            let archetype = self.archetypes.index(location.archetype_id);
            let table = self.tables.index(archetype.table_id());
            let table_row: usize = archetype.entity_table_row(location.index);
            if self.query_state.filter().filter_fetch(
                table,
                entity,
                table_row,
                self.last_change_tick,
                self.change_tick,
            ) {
                found = Some(QueryItem { entity, table_id: archetype.table_id(), table_row });
            }
        }
        let ghost start = self.position as int;
        self.position = position;
        proof {
            let ahead = old(self).entities_ahead();
            assert forall|j: int| 0 <= j < ahead.len() implies ahead[j] == self.entity_list@[start + j] by {}
            match found {
                Some(item) => {
                    let n = position - 1 - start;
                    assert(old(self).first_item_at(n, item));
                    assert(self.entities_ahead() =~= ahead.skip(n + 1));
                },
                None => {
                    assert(old(self).no_item_ahead());
                    assert(self.entities_ahead() =~= Seq::<Entity>::empty());
                },
            }
        }
        found
    }

    /// Same as [`QueryManyIter::fetch_next`]: items are plain values, so two
    /// of them can be held at once without aliasing any storage.
    pub fn next(&mut self) -> (r: Option<QueryItem>)
        ensures
            match r {
                Some(item) => old(self)@ == seq![item] + final(self)@,
                None => old(self)@ == Seq::<QueryItem>::empty() && final(self)@ == Seq::<
                    QueryItem,
                >::empty(),
            },
            match r {
                Some(item) => exists|n: int| #[trigger]
                    old(self).first_item_at(n, item) && final(self).entities_ahead()
                        == old(self).entities_ahead().skip(n + 1),
                None => old(self).no_item_ahead() && final(self).entities_ahead() == Seq::<
                    Entity,
                >::empty(),
            },
            forall|entity: Entity| #[trigger]
                final(self).item_for(entity) == old(self).item_for(entity),
    {
        self.fetch_next()
    }

    /// Bounds on the number of items still to come: none may match, and at
    /// most one item comes for each entity that has not been looked at.
    pub fn size_hint(&self) -> (r: (usize, Option<usize>))
        ensures
            r.0 == 0,
            r.1 == Some(self.entities_ahead().len() as usize),
    {
        proof {
            use_type_invariant(self);
        }
        (0, Some(self.entity_list.len() - self.position))
    }
}

/// An iterator over the `K`-sized combinations of query items, without
/// repetition.
///
/// For the items `[1, 2, 3, 4]` and `K = 2` it yields `[1, 2]`, `[1, 3]`,
/// `[1, 4]`, `[2, 3]`, `[2, 4]`, `[3, 4]`: the combinations in lexicographic
/// order of the positions of their items. Of `N` items there are `C(N, K)`
/// combinations: one for `K == N`, one, of no items, for `K == 0`, and none
/// for `K > N`.
pub struct QueryCombinationIter<'w, 's, F: QueryFilter, const K: usize> {
    tables: &'w Tables,
    archetypes: &'w Archetypes,
    query_state: &'s QueryState<F>,
    cursors: [QueryIterationCursor; K],
    last_change_tick: u32,
    change_tick: u32,
    started: bool,
}

/// The number of items of `source` that `cursor` has gone past.
pub closed spec fn cursor_position<F: QueryFilter>(
    cursor: QueryIterationCursor,
    source: Seq<QueryItem>,
    tables: &Tables,
    archetypes: &Archetypes,
    state: &QueryState<F>,
) -> int {
    source.len() - cursor.remaining(tables, archetypes, state).len()
}

/// The cursor fits the query and walks `source`: what it will still yield is
/// the part of `source` behind its position.
pub closed spec fn cursor_walks<F: QueryFilter>(
    cursor: QueryIterationCursor,
    source: Seq<QueryItem>,
    tables: &Tables,
    archetypes: &Archetypes,
    state: &QueryState<F>,
    ticks: (u32, u32),
) -> bool {
    &&& cursor.wf(tables, archetypes, state)
    &&& cursor.batch_valid(tables, archetypes)
    &&& cursor.ticks() == ticks
    &&& 0 <= cursor_position(cursor, source, tables, archetypes, state) <= source.len()
    &&& cursor.remaining(tables, archetypes, state) == source.skip(
        cursor_position(cursor, source, tables, archetypes, state),
    )
}

/// The cursor's last item is the item of `source` just before its position.
pub closed spec fn cursor_at_item<F: QueryFilter>(
    cursor: QueryIterationCursor,
    source: Seq<QueryItem>,
    tables: &Tables,
    archetypes: &Archetypes,
    state: &QueryState<F>,
) -> bool {
    let p = cursor_position(cursor, source, tables, archetypes, state);
    p >= 1 && cursor.last_item(tables, archetypes) == Some(source[p - 1])
}

impl<'w, 's, F: QueryFilter, const K: usize> QueryCombinationIter<'w, 's, F, K> {
    /// The items that combinations are made of, in the order of the query.
    pub closed spec fn source(&self) -> Seq<QueryItem> {
        all_items(
            self.query_state,
            self.tables,
            self.archetypes,
            (self.last_change_tick, self.change_tick),
        )
    }

    /// For each cursor, the number of items it has gone past.
    pub closed spec fn positions(&self) -> Seq<int> {
        Seq::new(
            K as nat,
            |k: int|
                cursor_position(
                    self.cursors@[k],
                    self.source(),
                    self.tables,
                    self.archetypes,
                    self.query_state,
                ),
        )
    }

    /// Whether the iterator has not been asked for a combination yet.
    pub closed spec fn fresh(&self) -> bool {
        !self.started
    }

    pub closed spec fn spec_archetypes(&self) -> &Archetypes {
        self.archetypes
    }

    pub closed spec fn spec_query_state(&self) -> &QueryState<F> {
        self.query_state
    }

    #[verifier::type_invariant]
    spec fn inv(self) -> bool {
        &&& self.query_state.valid_for(self.archetypes, self.tables)
        &&& forall|k: int|
            0 <= k < K ==> cursor_walks(
                #[trigger] self.cursors@[k],
                self.source(),
                self.tables,
                self.archetypes,
                self.query_state,
                (self.last_change_tick, self.change_tick),
            )
        &&& forall|k: int, i: int|
            #![trigger self.cursors@[k], can_advance(self.positions(), self.source().len() as int, i)]
            0 <= k < i < K && can_advance(self.positions(), self.source().len() as int, i)
                ==> cursor_at_item(
                self.cursors@[k],
                self.source(),
                self.tables,
                self.archetypes,
                self.query_state,
            )
    }

    /// An iterator over the combinations of the items of the query.
    pub fn new(
        world: &'w World,
        query_state: &'s QueryState<F>,
        last_change_tick: u32,
        change_tick: u32,
    ) -> (it: Self)
        requires
            query_state.valid_for(&world.archetypes, &world.storages.tables),
        ensures
            it.source() == all_items(
                query_state,
                &world.storages.tables,
                &world.archetypes,
                (last_change_tick, change_tick),
            ),
            it.positions() == initial_positions(K as int, it.source().len() as int),
            it.fresh(),
            it.spec_archetypes() == &world.archetypes,
            it.spec_query_state() == query_state,
    {
        let empty = QueryIterationCursor::init_empty(
            world,
            query_state,
            last_change_tick,
            change_tick,
        );
        let mut cursors: [QueryIterationCursor; K] = [empty;K];
        if K != 0 {
            cursors[0] = QueryIterationCursor::init(
                world,
                query_state,
                last_change_tick,
                change_tick,
            );
        }
        let ghost source = all_items(
            query_state,
            &world.storages.tables,
            &world.archetypes,
            (last_change_tick, change_tick),
        );
        proof {
            assert(source.skip(0) =~= source);
            assert(source.skip(source.len() as int) =~= Seq::<QueryItem>::empty());
        }
        let it = QueryCombinationIter {
            query_state,
            tables: &world.storages().tables,
            archetypes: &world.archetypes,
            cursors,
            last_change_tick,
            change_tick,
            started: false,
        };
        assert(it.positions() =~= initial_positions(K as int, it.source().len() as int));
        it
    }

    /// Get next combination of queried items.
    ///
    /// The last cursor that can still move up, with room for every cursor
    /// after it, moves up by one item, and each later cursor restarts
    /// directly behind its predecessor. When no cursor can move up, the
    /// iterator is exhausted and stays so. For `K == 0` there is one
    /// combination, the one of no items: it comes on the first call.
    pub fn fetch_next(&mut self) -> (r: Option<[QueryItem; K]>)
        ensures
            final(self).source() == old(self).source(),
            final(self).positions().len() == K,
            !final(self).fresh(),
            final(self).spec_archetypes() == old(self).spec_archetypes(),
            final(self).spec_query_state() == old(self).spec_query_state(),
            following(
                old(self).fresh(),
                old(self).positions(),
                old(self).source().len() as int,
            ) == if r is Some {
                Some(final(self).positions())
            } else {
                None
            },
            match r {
                Some(items) => {
                    &&& K > 0 ==> exists|i: int|
                        {
                            &&& #[trigger] is_pivot(
                                old(self).positions(),
                                old(self).source().len() as int,
                                i,
                            )
                            &&& final(self).positions() == advance_at(old(self).positions(), i)
                        }
                    &&& forall|k: int|
                        0 <= k < K ==> 1 <= final(self).positions()[k] <= old(self).source().len()
                            && #[trigger] items@[k] == old(self).source()[final(self).positions()[k]
                            - 1]
                },
                None => forall|i: int|
                    !can_advance(old(self).positions(), old(self).source().len() as int, i)
                        && !can_advance(
                        final(self).positions(),
                        old(self).source().len() as int,
                        i,
                    ),
            },
    {
        proof {
            use_type_invariant(&*self);
        }
        let fresh = !self.started;
        self.started = true;
        if K == 0 {
            assert(self.positions() =~= old(self).positions());
            if fresh {
                let nothing = QueryItem {
                    entity: Entity::from_raw(0),
                    table_id: TableId(0),
                    table_row: 0,
                };
                return Some([nothing;K]);
            }
            return None;
        }
        let ghost source = self.source();
        let ghost n = source.len() as int;
        let ghost before = self.positions();
        let ghost ticks = (self.last_change_tick, self.change_tick);
        let tables = self.tables;
        let archetypes = self.archetypes;
        let query_state = self.query_state;
        let mut cursors = self.cursors;
        // first, iterate from last to first until next item is found
        let mut i: usize = K;
        let mut found = false;
        while i > 0 && !found
            invariant
                0 <= i <= K,
                K > 0,
                query_state.valid_for(archetypes, tables),
                source == all_items(query_state, tables, archetypes, ticks),
                n == source.len(),
                before.len() == K,
                forall|k: int|
                    0 <= k < K ==> cursor_walks(
                        #[trigger] cursors@[k],
                        source,
                        tables,
                        archetypes,
                        query_state,
                        ticks,
                    ),
                forall|k: int|
                    0 <= k < K ==> before[k] == cursor_position(
                        old(self).cursors@[k],
                        source,
                        tables,
                        archetypes,
                        query_state,
                    ),
                forall|k: int| 0 <= k < i ==> cursors@[k] == old(self).cursors@[k],
                forall|k: int, j: int|
                    #![trigger old(self).cursors@[k], can_advance(before, n, j)]
                    0 <= k < j < K && can_advance(before, n, j) ==> cursor_at_item(
                        old(self).cursors@[k],
                        source,
                        tables,
                        archetypes,
                        query_state,
                    ),
                !found ==> forall|k: int| i <= k < K ==> !can_advance(before, n, k),
                !found ==> forall|k: int|
                    i <= k < K ==> cursor_position(
                        #[trigger] cursors@[k],
                        source,
                        tables,
                        archetypes,
                        query_state,
                    ) + (K - k) > n,
                found ==> is_pivot(before, n, i as int),
                found ==> forall|k: int|
                    i <= k < K ==> cursor_position(
                        #[trigger] cursors@[k],
                        source,
                        tables,
                        archetypes,
                        query_state,
                    ) == before[i as int] + 1 + (k - i) && cursor_at_item(
                        cursors@[k],
                        source,
                        tables,
                        archetypes,
                        query_state,
                    ),
            decreases i + (if found { 0int } else { 1int }),
        {
            i -= 1;
            let mut cursor = cursors[i];
            let ghost p = cursor_position(cursor, source, tables, archetypes, query_state);
            assert(cursor_walks(cursors@[i as int], source, tables, archetypes, query_state, ticks));
            let advanced = cursor.next(tables, archetypes, query_state);
            proof {
                lemma_cursor_step(cursor, source, p, advanced, tables, archetypes, query_state);
            }
            cursors[i] = cursor;
            if advanced.is_some() {
                // walk forward up to last element, propagating cursor state forward
                let mut j: usize = i + 1;
                let mut all = true;
                while j < K && all
                    invariant
                        i < j <= K,
                        query_state.valid_for(archetypes, tables),
                        source == all_items(query_state, tables, archetypes, ticks),
                        n == source.len(),
                        p == before[i as int],
                        p < n,
                        before.len() == K,
                        forall|k: int|
                            0 <= k < K ==> cursor_walks(
                                #[trigger] cursors@[k],
                                source,
                                tables,
                                archetypes,
                                query_state,
                                ticks,
                            ),
                        forall|k: int| 0 <= k < i ==> cursors@[k] == old(self).cursors@[k],
                        forall|k: int|
                            j <= k < K ==> cursor_position(
                                #[trigger] cursors@[k],
                                source,
                                tables,
                                archetypes,
                                query_state,
                            ) + (K - k) > n,
                        all ==> forall|k: int|
                            i <= k < j ==> cursor_position(
                                #[trigger] cursors@[k],
                                source,
                                tables,
                                archetypes,
                                query_state,
                            ) == p + 1 + (k - i) && cursor_at_item(
                                cursors@[k],
                                source,
                                tables,
                                archetypes,
                                query_state,
                            ),
                        !all ==> p + (K - i) > n,
                        !all ==> forall|k: int|
                            i <= k < j ==> cursor_position(
                                #[trigger] cursors@[k],
                                source,
                                tables,
                                archetypes,
                                query_state,
                            ) + (K - k) > n,
                    decreases K - j + (if all { 1int } else { 0int }),
                {
                    let mut follower = cursors[j - 1].clone_cursor();
                    let ghost q = cursor_position(
                        follower,
                        source,
                        tables,
                        archetypes,
                        query_state,
                    );
                    assert(cursor_walks(
                        cursors@[j - 1],
                        source,
                        tables,
                        archetypes,
                        query_state,
                        ticks,
                    ));
                    let pulled = follower.next(tables, archetypes, query_state);
                    proof {
                        lemma_cursor_step(
                            follower,
                            source,
                            q,
                            pulled,
                            tables,
                            archetypes,
                            query_state,
                        );
                    }
                    let ghost earlier = cursors;
                    cursors[j] = follower;
                    all = pulled.is_some();
                    proof {
                        if !all {
                            assert(q == n);
                            assert(q == p + 1 + (j - 1 - i));
                            assert forall|k: int| i <= k < j + 1 implies cursor_position(
                                #[trigger] cursors@[k],
                                source,
                                tables,
                                archetypes,
                                query_state,
                            ) + (K - k) > n by {
                                if k < j {
                                    assert(cursors@[k] == earlier@[k]);
                                    assert(cursor_position(
                                        earlier@[k],
                                        source,
                                        tables,
                                        archetypes,
                                        query_state,
                                    ) == p + 1 + (k - i));
                                }
                            }
                        } else {
                            assert forall|k: int| i <= k < j + 1 implies cursor_position(
                                #[trigger] cursors@[k],
                                source,
                                tables,
                                archetypes,
                                query_state,
                            ) == p + 1 + (k - i) && cursor_at_item(
                                cursors@[k],
                                source,
                                tables,
                                archetypes,
                                query_state,
                            ) by {
                                if k < j {
                                    assert(cursors@[k] == earlier@[k]);
                                }
                            }
                        }
                    }
                    j += 1;
                }
                if all {
                    proof {
                        assert(cursor_walks(
                            cursors@[K - 1],
                            source,
                            tables,
                            archetypes,
                            query_state,
                            ticks,
                        ));
                        assert(cursor_position(
                            cursors@[K - 1],
                            source,
                            tables,
                            archetypes,
                            query_state,
                        ) == p + 1 + (K - 1 - i));
                        assert(can_advance(before, n, i as int));
                    }
                    found = true;
                }
            }
        }
        self.cursors = cursors;
        if !found {
            proof {
                assert forall|j: int| !is_pivot(before, n, j) by {
                    assert(!can_advance(before, n, j));
                }
                assert(self.positions().len() == K);
                assert forall|k: int| !can_advance(self.positions(), n, k) by {
                    if 0 <= k < K {
                        assert(self.positions()[k] == cursor_position(
                            cursors@[k],
                            source,
                            tables,
                            archetypes,
                            query_state,
                        ));
                    }
                }
            }
            return None;
        }
        proof {
            assert(self.positions() =~= advance_at(before, i as int)) by {
                assert forall|k: int| 0 <= k < K implies self.positions()[k] == advance_at(
                    before,
                    i as int,
                )[k] by {
                    if k < i {
                        assert(cursors@[k] == old(self).cursors@[k]);
                    }
                }
            }
        }
        let first = match cursors[0].peek_last(tables, archetypes) {
            Some(item) => item,
            None => vstd::pervasive::unreached(),
        };
        let mut values: [QueryItem; K] = [first;K];
        let mut k: usize = 0;
        while k < K
            invariant
                0 <= k <= K,
                forall|m: int|
                    0 <= m < K ==> cursor_walks(
                        #[trigger] cursors@[m],
                        source,
                        tables,
                        archetypes,
                        query_state,
                        ticks,
                    ) && cursor_at_item(cursors@[m], source, tables, archetypes, query_state),
                forall|m: int|
                    0 <= m < k ==> #[trigger] values@[m] == source[cursor_position(
                        cursors@[m],
                        source,
                        tables,
                        archetypes,
                        query_state,
                    ) - 1],
            decreases K - k,
        {
            assert(cursor_walks(cursors@[k as int], source, tables, archetypes, query_state, ticks));
            let item = match cursors[k].peek_last(tables, archetypes) {
                Some(item) => item,
                None => vstd::pervasive::unreached(),
            };
            values[k] = item;
            k += 1;
        }
        proof {
            assert(is_pivot(before, n, i as int));
            let chosen = choose|j: int| is_pivot(before, n, j);
            lemma_pivot_unique(before, n, chosen, i as int);
            assert forall|m: int| 0 <= m < K implies 1 <= self.positions()[m] <= n
                && #[trigger] values@[m] == source[self.positions()[m] - 1] by {
                assert(cursor_walks(cursors@[m], source, tables, archetypes, query_state, ticks));
            }
        }
        Some(values)
    }

    /// Asks an iterator that has not been asked yet for combinations until
    /// none is left, and hands them all back in the order in which they
    /// came: there are `C(n, K)` of them for the `n` items of the query, and
    /// they are the combinations of [`combinations`] in that order, each
    /// made of the items at `K` increasing positions.
    pub fn collect(&mut self) -> (all: Vec<[QueryItem; K]>)
        requires
            old(self).fresh(),
            old(self).positions() == initial_positions(K as int, old(self).source().len() as int),
        ensures
            final(self).source() == old(self).source(),
            all@.len() == binomial(old(self).source().len(), K as nat),
            all@.len() == combinations(0, old(self).source().len() as int, K as nat).len(),
            forall|j: int, k: int|
                0 <= j < all@.len() && 0 <= k < K ==> 1 <= #[trigger] combinations(
                    0,
                    old(self).source().len() as int,
                    K as nat,
                )[j][k] <= old(self).source().len() && all@[j]@[k] == old(self).source()[combinations(
                    0,
                    old(self).source().len() as int,
                    K as nat,
                )[j][k] - 1],
            following(
                final(self).fresh(),
                final(self).positions(),
                old(self).source().len() as int,
            ) is None,
    {
        let ghost source = self.source();
        let ghost n = source.len();
        let ghost list = combinations(0, n as int, K as nat);
        let mut all: Vec<[QueryItem; K]> = Vec::new();
        let mut done = false;
        proof {
            law_combination_count(n, K as nat);
        }
        while !done
            invariant
                self.source() == source,
                n == source.len(),
                list == combinations(0, n as int, K as nat),
                list.len() == binomial(n, K as nat),
                self.positions().len() == K,
                all@.len() <= list.len(),
                !done && all@.len() == 0 ==> self.fresh() && self.positions() == initial_positions(
                    K as int,
                    n as int,
                ),
                !done && all@.len() > 0 ==> !self.fresh() && self.positions() == list[all@.len() - 1],
                done ==> all@.len() == list.len() && following(
                    self.fresh(),
                    self.positions(),
                    n as int,
                ) is None,
                forall|j: int, k: int|
                    0 <= j < all@.len() && 0 <= k < K ==> 1 <= #[trigger] list[j][k] <= n
                        && all@[j]@[k] == source[list[j][k] - 1],
            decreases
                    list.len() - all@.len() + (if done {
                        0int
                    } else {
                        1int
                    }),
        {
            let ghost count = all@.len() as int;
            let ghost before = self.positions();
            let ghost was_fresh = self.fresh();
            let next = self.fetch_next();
            proof {
                law_combination_count(n, K as nat);
                if count > 0 && count < list.len() {
                    assert(following(false, list[count - 1], n as int) == Some(list[count]));
                }
                if K as nat <= n {
                    lemma_first_and_last(0, n as int, K as nat);
                }
            }
            match next {
                Some(items) => {
                    proof {
                        assert(count < list.len());
                        assert(self.positions() == list[count]);
                        lemma_members(0, n as int, K as nat, count);
                    }
                    let ghost earlier = all@;
                    all.push(items);
                    proof {
                        assert forall|j: int, k: int|
                            0 <= j < all@.len() && 0 <= k < K implies 1 <= #[trigger] list[j][k] <= n
                            && all@[j]@[k] == source[list[j][k] - 1] by {
                            if j < count {
                                assert(all@[j] == earlier[j]);
                            } else {
                                assert(all@[j] == items);
                                assert(items@[k] == source[self.positions()[k] - 1]);
                            }
                        }
                    }
                },
                None => {
                    proof {
                        assert(count == list.len());
                        let after = self.positions();
                        assert forall|i: int| !is_pivot(after, n as int, i) by {
                            assert(!can_advance(after, n as int, i));
                        }
                    }
                    done = true;
                },
            }
        }
        all
    }

    /// Bounds on the number of combinations, from the number `n` of entities
    /// in the matched archetypes, see [`combination_size_hint`].
    pub fn size_hint(&self) -> (r: (usize, Option<usize>))
        requires
            total_entities(self.spec_archetypes()@, self.spec_query_state().archetype_indices())
                <= usize::MAX,
        ensures
            r == combination_size_hint(
                total_entities(
                    self.spec_archetypes()@,
                    self.spec_query_state().archetype_indices(),
                ),
                K as nat,
                self.spec_query_state().spec_filter().archetypal(),
            ),
    {
        proof {
            use_type_invariant(self);
        }
        let max_size: usize = count_matched_entities(self.query_state, self.archetypes);
        let max_combinations = n_choose_k(max_size, K);
        let archetype_query = self.query_state.filter().is_archetypal();
        let known_max: usize = match max_combinations {
            Some(count) => count,
            None => usize::MAX,
        };
        let min_combinations: usize = if archetype_query {
            known_max
        } else {
            0
        };
        (min_combinations, max_combinations)
    }
}

/// The size hint of a combination iterator over `n` entities that picks
/// `k`. The upper bound is `C(n, k)`, and unknown when that does not fit in
/// a `usize`. The lower bound is the same number for an archetypal filter,
/// with `usize::MAX` where it does not fit, and 0 for a filter that can
/// reject rows.
pub open spec fn combination_size_hint(n: nat, k: nat, archetypal: bool) -> (usize, Option<usize>) {
    if binomial(n, k) <= usize::MAX {
        (
            if archetypal {
                binomial(n, k) as usize
            } else {
                0usize
            },
            Some(binomial(n, k) as usize),
        )
    } else {
        (
            if archetypal {
                usize::MAX
            } else {
                0usize
            },
            None,
        )
    }
}

/// What one `next` does to a cursor that walks `source`: on an item, the
/// position moves up by one and the item is the one it moved past; on
/// `None`, the cursor was and stays at the end.
proof fn lemma_cursor_step<F: QueryFilter>(
    after: QueryIterationCursor,
    source: Seq<QueryItem>,
    p: int,
    r: Option<QueryItem>,
    tables: &Tables,
    archetypes: &Archetypes,
    state: &QueryState<F>,
)
    requires
        0 <= p <= source.len(),
        after.wf(tables, archetypes, state),
        after.batch_valid(tables, archetypes),
        match r {
            Some(item) => source.skip(p) == seq![item] + after.remaining(tables, archetypes, state)
                && after.last_item(tables, archetypes) == Some(item),
            None => source.skip(p) == Seq::<QueryItem>::empty() && after.remaining(
                tables,
                archetypes,
                state,
            ) == Seq::<QueryItem>::empty(),
        },
    ensures
        cursor_walks(after, source, tables, archetypes, state, after.ticks()),
        match r {
            Some(item) => p < source.len() && cursor_position(
                after,
                source,
                tables,
                archetypes,
                state,
            ) == p + 1 && cursor_at_item(after, source, tables, archetypes, state),
            None => p == source.len() && cursor_position(after, source, tables, archetypes, state)
                == p,
        },
{
    let rest = after.remaining(tables, archetypes, state);
    match r {
        Some(item) => {
            assert(source.skip(p).len() == rest.len() + 1);
            assert(source.skip(p)[0] == item);
            assert(rest =~= source.skip(p + 1)) by {
                assert forall|m: int| 0 <= m < rest.len() implies rest[m] == source.skip(p + 1)[m] by {
                    assert(source.skip(p)[m + 1] == (seq![item] + rest)[m + 1]);
                }
            }
        },
        None => {
            assert(source.skip(p).len() == 0);
            assert(rest =~= source.skip(p));
        },
    }
}

} // verus!
