//! Batches: spans of the matched tables and archetypes that can be walked
//! independently of each other, for whoever hands the work out.

use crate::archetype::{Archetype, Archetypes};
use crate::query::filter::QueryFilter;
use crate::query::iter::{all_items, dense_batch, dense_rest, sparse_batch, sparse_rest, QueryItem};
use crate::query::state::QueryState;
use crate::storage::table::{Table, TableId, Tables};
use vstd::prelude::*;

verus! {

/// A span of one matched table (of its rows, for a dense query) or of one
/// matched archetype (of its entities, for a sparse query): the places
/// `start..end` of the table or archetype at `position` of the matched
/// list.
#[derive(Debug, Copy, Clone, PartialEq, Eq, Structural)]
pub struct Batch {
    pub position: usize,
    pub start: usize,
    pub end: usize,
}

/// The places `from..len` cut into spans of `size` places, the last one
/// shorter if it has to be.
pub open spec fn spans(position: usize, from: int, len: int, size: int) -> Seq<Batch>
    decreases len - from,
{
    if from < 0 || from >= len || size <= 0 {
        Seq::empty()
    } else {
        let end = if from + size < len {
            from + size
        } else {
            len
        };
        seq![Batch { position, start: from as usize, end: end as usize }] + spans(
            position,
            end,
            len,
            size,
        )
    }
}

/// The number of tables (dense) or archetypes (sparse) that the query
/// walks.
pub open spec fn walked<F: QueryFilter>(state: &QueryState<F>) -> int {
    if state.dense() {
        state.table_ids().len() as int
    } else {
        state.archetype_indices().len() as int
    }
}

/// The number of places of the table or archetype at `position` of the
/// matched list.
pub open spec fn places<F: QueryFilter>(
    state: &QueryState<F>,
    tables: &Tables,
    archetypes: &Archetypes,
    position: int,
) -> int {
    if state.dense() {
        tables@[state.table_ids()[position].0 as int]@.len() as int
    } else {
        archetypes@[state.archetype_indices()[position] as int]@.len() as int
    }
}

/// The batches of the tables or archetypes from `from` on, in the order in
/// which a cursor walks them.
pub open spec fn batches_from<F: QueryFilter>(
    state: &QueryState<F>,
    tables: &Tables,
    archetypes: &Archetypes,
    from: int,
    size: int,
) -> Seq<Batch>
    decreases walked(state) - from,
{
    if from < 0 || from >= walked(state) {
        Seq::empty()
    } else {
        spans(from as usize, 0, places(state, tables, archetypes, from), size) + batches_from(
            state,
            tables,
            archetypes,
            from + 1,
            size,
        )
    }
}

/// The items of the rows `from..to` of `table` that pass `filter`, in row
/// order.
pub open spec fn dense_span<F: QueryFilter>(
    filter: &F,
    table: &Table,
    table_id: TableId,
    from: int,
    to: int,
    ticks: (u32, u32),
) -> Seq<QueryItem>
    decreases to - from,
{
    if from < 0 || from >= to {
        Seq::empty()
    } else {
        let rest = dense_span(filter, table, table_id, from + 1, to, ticks);
        if filter.accepts(table, table@[from], from as usize, ticks.0, ticks.1) {
            seq![QueryItem { entity: table@[from], table_id, table_row: from as usize }] + rest
        } else {
            rest
        }
    }
}

/// The items of the entities `from..to` of `archetype` that pass `filter`,
/// in the order of the archetype's entity list.
pub open spec fn sparse_span<F: QueryFilter>(
    filter: &F,
    archetype: &Archetype,
    table: &Table,
    from: int,
    to: int,
    ticks: (u32, u32),
) -> Seq<QueryItem>
    decreases to - from,
{
    if from < 0 || from >= to {
        Seq::empty()
    } else {
        let rest = sparse_span(filter, archetype, table, from + 1, to, ticks);
        let row = archetype@[from];
        if filter.accepts(table, row.entity, row.table_row, ticks.0, ticks.1) {
            seq![
                QueryItem {
                    entity: row.entity,
                    table_id: archetype.spec_table_id(),
                    table_row: row.table_row,
                },
            ] + rest
        } else {
            rest
        }
    }
}

/// The items that a walk of one batch yields.
pub open spec fn batch_items<F: QueryFilter>(
    state: &QueryState<F>,
    tables: &Tables,
    archetypes: &Archetypes,
    batch: Batch,
    ticks: (u32, u32),
) -> Seq<QueryItem> {
    if state.dense() {
        let table_id = state.table_ids()[batch.position as int];
        dense_span(
            &state.spec_filter(),
            &tables@[table_id.0 as int],
            table_id,
            batch.start as int,
            batch.end as int,
            ticks,
        )
    } else {
        let archetype = archetypes@[state.archetype_indices()[batch.position as int] as int];
        sparse_span(
            &state.spec_filter(),
            &archetype,
            &tables@[archetype.spec_table_id().0 as int],
            batch.start as int,
            batch.end as int,
            ticks,
        )
    }
}

/// The items of the batches `batches[from..]`, batch after batch.
pub open spec fn joined<F: QueryFilter>(
    state: &QueryState<F>,
    tables: &Tables,
    archetypes: &Archetypes,
    batches: Seq<Batch>,
    from: int,
    ticks: (u32, u32),
) -> Seq<QueryItem>
    decreases batches.len() - from,
{
    if from < 0 || from >= batches.len() {
        Seq::empty()
    } else {
        batch_items(state, tables, archetypes, batches[from], ticks) + joined(
            state,
            tables,
            archetypes,
            batches,
            from + 1,
            ticks,
        )
    }
}

/// Every batch of `spans` is a span of `position` that is not empty and no
/// longer than `size`, the first one starts at `from`, each one starts
/// where the one before it ends, and the last one ends at `len`.
pub proof fn law_spans_are_consecutive(position: usize, from: int, len: int, size: int)
    requires
        0 <= from <= len <= usize::MAX,
        size > 0,
    ensures
        from == len <==> spans(position, from, len, size).len() == 0,
        from < len ==> spans(position, from, len, size)[0].start == from && spans(
            position,
            from,
            len,
            size,
        ).last().end == len,
        forall|i: int|
            0 <= i < spans(position, from, len, size).len() ==> {
                let batch = #[trigger] spans(position, from, len, size)[i];
                &&& batch.position == position
                &&& from <= batch.start < batch.end <= len
                &&& batch.end - batch.start <= size
            },
        forall|i: int|
            0 <= i < spans(position, from, len, size).len() - 1 ==> (#[trigger] spans(
                position,
                from,
                len,
                size,
            )[i]).end == spans(position, from, len, size)[i + 1].start,
    decreases len - from,
{
    if from < len {
        let end = if from + size < len {
            from + size
        } else {
            len
        };
        let all = spans(position, from, len, size);
        let rest = spans(position, end, len, size);
        law_spans_are_consecutive(position, end, len, size);
        assert(all.len() == rest.len() + 1);
        assert forall|i: int| 0 <= i < all.len() implies {
            let batch = #[trigger] all[i];
            &&& batch.position == position
            &&& from <= batch.start < batch.end <= len
            &&& batch.end - batch.start <= size
        } by {
            if i > 0 {
                assert(all[i] == rest[i - 1]);
            }
        }
        assert forall|i: int| 0 <= i < all.len() - 1 implies (#[trigger] all[i]).end == all[i
            + 1].start by {
            assert(all[i + 1] == rest[i]);
            if i > 0 {
                assert(all[i] == rest[i - 1]);
            }
        }
        if end < len {
            assert(all.last() == rest.last());
        }
    }
}

/// The rows of a table from `from` on are the rows up to `to` and the rows
/// from `to` on.
pub proof fn lemma_dense_span<F: QueryFilter>(
    filter: &F,
    table: &Table,
    table_id: TableId,
    from: int,
    to: int,
    ticks: (u32, u32),
)
    requires
        0 <= from <= to <= table@.len(),
    ensures
        dense_batch(filter, table, table_id, from, ticks) == dense_span(
            filter,
            table,
            table_id,
            from,
            to,
            ticks,
        ) + dense_batch(filter, table, table_id, to, ticks),
    decreases to - from,
{
    let whole = dense_batch(filter, table, table_id, from, ticks);
    let span = dense_span(filter, table, table_id, from, to, ticks);
    let rest = dense_batch(filter, table, table_id, to, ticks);
    if from < to {
        lemma_dense_span(filter, table, table_id, from + 1, to, ticks);
        let inner = dense_span(filter, table, table_id, from + 1, to, ticks);
        let item = QueryItem { entity: table@[from], table_id, table_row: from as usize };
        assert((seq![item] + inner) + rest =~= seq![item] + (inner + rest));
    }
    assert(whole =~= span + rest);
}

/// The entities of an archetype from `from` on are the entities up to `to`
/// and the entities from `to` on.
pub proof fn lemma_sparse_span<F: QueryFilter>(
    filter: &F,
    archetype: &Archetype,
    table: &Table,
    from: int,
    to: int,
    ticks: (u32, u32),
)
    requires
        0 <= from <= to <= archetype@.len(),
    ensures
        sparse_batch(filter, archetype, table, from, ticks) == sparse_span(
            filter,
            archetype,
            table,
            from,
            to,
            ticks,
        ) + sparse_batch(filter, archetype, table, to, ticks),
    decreases to - from,
{
    let whole = sparse_batch(filter, archetype, table, from, ticks);
    let span = sparse_span(filter, archetype, table, from, to, ticks);
    let rest = sparse_batch(filter, archetype, table, to, ticks);
    if from < to {
        lemma_sparse_span(filter, archetype, table, from + 1, to, ticks);
        let inner = sparse_span(filter, archetype, table, from + 1, to, ticks);
        let row = archetype@[from];
        let item = QueryItem {
            entity: row.entity,
            table_id: archetype.spec_table_id(),
            table_row: row.table_row,
        };
        assert((seq![item] + inner) + rest =~= seq![item] + (inner + rest));
    }
    assert(whole =~= span + rest);
}

/// The items of two lists of batches, one after the other, are the items
/// of the first list and then those of the second.
pub proof fn lemma_joined_add<F: QueryFilter>(
    state: &QueryState<F>,
    tables: &Tables,
    archetypes: &Archetypes,
    first: Seq<Batch>,
    second: Seq<Batch>,
    from: int,
    ticks: (u32, u32),
)
    requires
        0 <= from <= first.len() + second.len(),
    ensures
        joined(state, tables, archetypes, first + second, from, ticks) == if from < first.len() {
            joined(state, tables, archetypes, first, from, ticks) + joined(
                state,
                tables,
                archetypes,
                second,
                0,
                ticks,
            )
        } else {
            joined(state, tables, archetypes, second, from - first.len(), ticks)
        },
    decreases first.len() + second.len() - from,
{
    let both = first + second;
    if from < both.len() {
        lemma_joined_add(state, tables, archetypes, first, second, from + 1, ticks);
        let head = batch_items(state, tables, archetypes, both[from], ticks);
        if from < first.len() {
            assert(both[from] == first[from]);
            let tail = joined(state, tables, archetypes, first, from + 1, ticks);
            let other = joined(state, tables, archetypes, second, 0, ticks);
            if from + 1 < first.len() {
                assert(head + (tail + other) =~= (head + tail) + other);
            } else {
                assert(tail =~= Seq::<QueryItem>::empty());
                assert(head + other =~= (head + tail) + other);
            }
        } else {
            assert(both[from] == second[from - first.len()]);
        }
    }
}

/// Walking the batches of one table or archetype, one after the other,
/// yields what a walk of the table or archetype from `from` on yields.
pub proof fn lemma_spans_join<F: QueryFilter>(
    state: &QueryState<F>,
    tables: &Tables,
    archetypes: &Archetypes,
    position: int,
    from: int,
    size: int,
    ticks: (u32, u32),
)
    requires
        0 <= position < walked(state),
        position <= usize::MAX,
        0 <= from <= places(state, tables, archetypes, position) <= usize::MAX,
        size > 0,
    ensures
        joined(
            state,
            tables,
            archetypes,
            spans(position as usize, from, places(state, tables, archetypes, position), size),
            0,
            ticks,
        ) == if state.dense() {
            dense_batch(
                &state.spec_filter(),
                &tables@[state.table_ids()[position].0 as int],
                state.table_ids()[position],
                from,
                ticks,
            )
        } else {
            sparse_batch(
                &state.spec_filter(),
                &archetypes@[state.archetype_indices()[position] as int],
                &tables@[archetypes@[state.archetype_indices()[position] as int].spec_table_id().0 as int],
                from,
                ticks,
            )
        },
    decreases places(state, tables, archetypes, position) - from,
{
    let len = places(state, tables, archetypes, position);
    let all = spans(position as usize, from, len, size);
    if from < len {
        let end = if from + size < len {
            from + size
        } else {
            len
        };
        let head = Batch { position: position as usize, start: from as usize, end: end as usize };
        let rest = spans(position as usize, end, len, size);
        lemma_spans_join(state, tables, archetypes, position, end, size, ticks);
        lemma_joined_add(state, tables, archetypes, seq![head], rest, 0, ticks);
        assert(joined(state, tables, archetypes, seq![head], 1, ticks) =~= Seq::<QueryItem>::empty());
        assert(joined(state, tables, archetypes, seq![head], 0, ticks) =~= batch_items(
            state,
            tables,
            archetypes,
            head,
            ticks,
        ));
        if state.dense() {
            let table_id = state.table_ids()[position];
            lemma_dense_span(
                &state.spec_filter(),
                &tables@[table_id.0 as int],
                table_id,
                from,
                end,
                ticks,
            );
        } else {
            let archetype = archetypes@[state.archetype_indices()[position] as int];
            lemma_sparse_span(
                &state.spec_filter(),
                &archetype,
                &tables@[archetype.spec_table_id().0 as int],
                from,
                end,
                ticks,
            );
        }
    } else {
        assert(all =~= Seq::<Batch>::empty());
    }
}

/// Walking the batches from position `from` on, one after the other,
/// yields what a cursor yields from there on.
pub proof fn lemma_batches_join<F: QueryFilter>(
    state: &QueryState<F>,
    tables: &Tables,
    archetypes: &Archetypes,
    from: int,
    size: int,
    ticks: (u32, u32),
)
    requires
        0 <= from <= walked(state),
        walked(state) <= usize::MAX,
        forall|p: int|
            0 <= p < walked(state) ==> 0 <= #[trigger] places(state, tables, archetypes, p)
                <= usize::MAX,
        size > 0,
    ensures
        joined(state, tables, archetypes, batches_from(state, tables, archetypes, from, size), 0, ticks)
            == if state.dense() {
            dense_rest(
                &state.spec_filter(),
                tables@,
                state.table_ids(),
                from,
                state.table_ids().len() as int,
                ticks,
            )
        } else {
            sparse_rest(
                &state.spec_filter(),
                archetypes@,
                tables@,
                state.archetype_indices(),
                from,
                state.archetype_indices().len() as int,
                ticks,
            )
        },
    decreases walked(state) - from,
{
    if from < walked(state) {
        let first = spans(from as usize, 0, places(state, tables, archetypes, from), size);
        let rest = batches_from(state, tables, archetypes, from + 1, size);
        lemma_batches_join(state, tables, archetypes, from + 1, size, ticks);
        lemma_spans_join(state, tables, archetypes, from, 0, size, ticks);
        lemma_joined_add(state, tables, archetypes, first, rest, 0, ticks);
        if first.len() == 0 {
            assert(joined(state, tables, archetypes, first, 0, ticks) =~= Seq::<QueryItem>::empty());
            assert(first + rest =~= rest);
        }
    }
}

/// Batches lose nothing and repeat nothing: walking the batches of a query
/// one after the other yields exactly what one cursor over the query
/// yields, in the same order, whatever the batch size.
pub proof fn law_batches_yield_all_items<F: QueryFilter>(
    state: &QueryState<F>,
    tables: &Tables,
    archetypes: &Archetypes,
    size: int,
    ticks: (u32, u32),
)
    requires
        walked(state) <= usize::MAX,
        forall|p: int|
            0 <= p < walked(state) ==> 0 <= #[trigger] places(state, tables, archetypes, p)
                <= usize::MAX,
        size > 0,
    ensures
        joined(state, tables, archetypes, batches_from(state, tables, archetypes, 0, size), 0, ticks)
            == all_items(state, tables, archetypes, ticks),
{
    lemma_batches_join(state, tables, archetypes, 0, size, ticks);
}

/// Appends the spans of `size` places that cover the places `0..len` of
/// the table or archetype at `position`.
pub fn push_spans(batches: &mut Vec<Batch>, position: usize, len: usize, size: usize)
    requires
        size > 0,
    ensures
        final(batches)@ == old(batches)@ + spans(position, 0, len as int, size as int),
{
    let mut start: usize = 0;
    while start < len
        invariant
            start <= len,
            size > 0,
            batches@ + spans(position, start as int, len as int, size as int) == old(batches)@
                + spans(position, 0, len as int, size as int),
        decreases len - start,
    {
        let end: usize = if len - start > size {
            start + size
        } else {
            len
        };
        let ghost before = batches@;
        let ghost rest = spans(position, end as int, len as int, size as int);
        let batch = Batch { position, start, end };
        batches.push(batch);
        assert(before.push(batch) + rest =~= before + (seq![batch] + rest));
        start = end;
    }
    assert(batches@ + Seq::<Batch>::empty() =~= batches@);
}

/// The batches of a query: each matched table (dense) or archetype
/// (sparse) cut into spans of `batch_size` places, in the order in which a
/// cursor walks them. The spans can be walked independently of each other,
/// see [`fetch_batch`].
pub fn batches<F: QueryFilter>(
    state: &QueryState<F>,
    tables: &Tables,
    archetypes: &Archetypes,
    batch_size: usize,
) -> (all: Vec<Batch>)
    requires
        state.valid_for(archetypes, tables),
        batch_size > 0,
    ensures
        all@ == batches_from(state, tables, archetypes, 0, batch_size as int),
{
    let mut all: Vec<Batch> = Vec::new();
    let dense = state.is_dense();
    let n: usize = if dense {
        state.matched_table_ids().len()
    } else {
        state.matched_archetype_ids().len()
    };
    let mut position: usize = 0;
    while position < n
        invariant
            position <= n,
            n == walked(state),
            dense == state.dense(),
            batch_size > 0,
            state.valid_for(archetypes, tables),
            all@ + batches_from(state, tables, archetypes, position as int, batch_size as int)
                == batches_from(state, tables, archetypes, 0, batch_size as int),
        decreases n - position,
    {
        let len: usize = if dense {
            let table_id = state.matched_table_ids()[position];
            tables.index(table_id).entity_count()
        } else {
            let archetype_id = state.matched_archetype_ids()[position];
            assert(archetype_id.spec_index() == state.archetype_indices()[position as int]);
            archetypes.index(archetype_id).len()
        };
        let ghost before = all@;
        let ghost first = spans(position, 0, len as int, batch_size as int);
        let ghost rest = batches_from(state, tables, archetypes, position + 1, batch_size as int);
        push_spans(&mut all, position, len, batch_size);
        assert((before + first) + rest =~= before + (first + rest));
        position += 1;
    }
    assert(all@ + Seq::<Batch>::empty() =~= all@);
    all
}

/// Walks one batch: the items of its places that pass the filter, in
/// order.
pub fn fetch_batch<F: QueryFilter>(
    state: &QueryState<F>,
    tables: &Tables,
    archetypes: &Archetypes,
    batch: Batch,
    last_change_tick: u32,
    change_tick: u32,
) -> (items: Vec<QueryItem>)
    requires
        state.valid_for(archetypes, tables),
        batch.position < walked(state),
        batch.start <= batch.end <= places(state, tables, archetypes, batch.position as int),
    ensures
        items@ == batch_items(state, tables, archetypes, batch, (last_change_tick, change_tick)),
{
    let ghost ticks = (last_change_tick, change_tick);
    let ghost filter = state.spec_filter();
    let mut items: Vec<QueryItem> = Vec::new();
    let mut place: usize = batch.start;
    if state.is_dense() {
        let table_id = state.matched_table_ids()[batch.position];
        let table = tables.index(table_id);
        while place < batch.end
            invariant
                batch.start <= place <= batch.end <= table@.len(),
                table.wf(),
                filter == state.spec_filter(),
                ticks == (last_change_tick, change_tick),
                items@ + dense_span(&filter, table, table_id, place as int, batch.end as int, ticks)
                    == dense_span(&filter, table, table_id, batch.start as int, batch.end as int, ticks),
            decreases batch.end - place,
        {
            let entity = table.entities()[place];
            let ghost before = items@;
            let ghost rest = dense_span(&filter, table, table_id, place + 1, batch.end as int, ticks);
            let passes = state.filter().filter_fetch(
                table,
                entity,
                place,
                last_change_tick,
                change_tick,
            );
            assert(passes == filter.accepts(table, table@[place as int], place, ticks.0, ticks.1));
            if passes {
                let item = QueryItem { entity, table_id, table_row: place };
                items.push(item);
                assert(before.push(item) + rest =~= before + (seq![item] + rest));
            }
            place += 1;
        }
        assert(items@ + Seq::<QueryItem>::empty() =~= items@);
    } else {
        let archetype_id = state.matched_archetype_ids()[batch.position];
        assert(archetype_id.spec_index() == state.archetype_indices()[batch.position as int]);
        let archetype = archetypes.index(archetype_id);
        let table = tables.index(archetype.table_id());
        while place < batch.end
            invariant
                batch.start <= place <= batch.end <= archetype@.len(),
                table.wf(),
                filter == state.spec_filter(),
                ticks == (last_change_tick, change_tick),
                items@ + sparse_span(&filter, archetype, table, place as int, batch.end as int, ticks)
                    == sparse_span(&filter, archetype, table, batch.start as int, batch.end as int, ticks),
            decreases batch.end - place,
        {
            let entry = archetype.entities()[place];
            let ghost before = items@;
            let ghost rest = sparse_span(&filter, archetype, table, place + 1, batch.end as int, ticks);
            let passes = state.filter().filter_fetch(
                table,
                entry.entity,
                entry.table_row,
                last_change_tick,
                change_tick,
            );
            assert(entry == archetype@[place as int]);
            assert(passes == filter.accepts(table, entry.entity, entry.table_row, ticks.0, ticks.1));
            if passes {
                let item = QueryItem {
                    entity: entry.entity,
                    table_id: archetype.table_id(),
                    table_row: entry.table_row,
                };
                items.push(item);
                assert(before.push(item) + rest =~= before + (seq![item] + rest));
            }
            place += 1;
        }
        assert(items@ + Seq::<QueryItem>::empty() =~= items@);
    }
    items
}

} // verus!
