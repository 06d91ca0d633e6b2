//! Dense and sparse walks of one query yield the same items.

use crate::archetype::Archetype;
use crate::query::filter::QueryFilter;
use crate::query::iter::{dense_batch, dense_rest, sparse_batch, sparse_rest, QueryItem};
use crate::storage::table::{Table, TableId};
use vstd::prelude::*;
use vstd::seq_lib::{lemma_no_dup_in_concat, to_multiset_contains};

verus! {

/// The item of row `row` of the table `table_id`.
pub open spec fn row_item(table: &Table, table_id: TableId, row: int) -> QueryItem {
    QueryItem { entity: table@[row], table_id, table_row: row as usize }
}

/// The item of entity number `i` of an archetype.
pub open spec fn entity_item(archetype: &Archetype, i: int) -> QueryItem {
    QueryItem {
        entity: archetype@[i].entity,
        table_id: archetype.spec_table_id(),
        table_row: archetype@[i].table_row,
    }
}

/// Entity number `i` of archetype `a` sits in row `row` of table `table_id`.
pub open spec fn owns(
    archetypes: Seq<Archetype>,
    a: usize,
    i: int,
    table_id: TableId,
    row: usize,
) -> bool {
    &&& 0 <= i < archetypes[a as int]@.len()
    &&& archetypes[a as int].spec_table_id() == table_id
    &&& archetypes[a as int]@[i].table_row == row
}

/// Some entity of one of the archetypes `indices` sits in row `row` of table
/// `table_id`.
pub open spec fn row_owned(
    archetypes: Seq<Archetype>,
    indices: Seq<usize>,
    table_id: TableId,
    row: usize,
) -> bool {
    exists|k: int, i: int|
        0 <= k < indices.len() && #[trigger] owns(archetypes, indices[k], i, table_id, row)
}

/// The row that entity number `i` of archetype `a` names exists in the
/// archetype's table and belongs to that entity.
pub open spec fn row_valid(tables: Seq<Table>, archetypes: Seq<Archetype>, a: usize, i: int) -> bool {
    let archetype = archetypes[a as int];
    let table = tables[archetype.spec_table_id().0 as int];
    &&& archetype@[i].table_row < table@.len()
    &&& table@[archetype@[i].table_row as int] == archetype@[i].entity
}

/// The matched archetypes and the matched tables hold the same rows: every
/// entity of a matched archetype sits in its own row of the archetype's
/// table, that table is matched, and every row of a matched table belongs to
/// an entity of a matched archetype.
pub open spec fn rows_consistent(
    tables: Seq<Table>,
    archetypes: Seq<Archetype>,
    table_ids: Seq<TableId>,
    indices: Seq<usize>,
) -> bool {
    &&& table_ids.no_duplicates()
    &&& indices.no_duplicates()
    &&& forall|q: int| 0 <= q < table_ids.len() ==> (#[trigger] table_ids[q]).0 < tables.len()
    &&& forall|k: int|
        0 <= k < indices.len() ==> (#[trigger] indices[k]) < archetypes.len() && table_ids.contains(
            archetypes[indices[k] as int].spec_table_id(),
        )
    &&& forall|k: int, i: int|
        0 <= k < indices.len() && 0 <= i < archetypes[indices[k] as int]@.len() ==> #[trigger] row_valid(
            tables,
            archetypes,
            indices[k],
            i,
        )
    &&& forall|q: int, row: usize|
        0 <= q < table_ids.len() && row < tables[table_ids[q].0 as int]@.len() ==> #[trigger] row_owned(
            archetypes,
            indices,
            table_ids[q],
            row,
        )
    &&& forall|k: int, i: int, m: int, j: int, table_id: TableId, row: usize|
        0 <= k < indices.len() && 0 <= m < indices.len() && #[trigger] owns(
            archetypes,
            indices[k],
            i,
            table_id,
            row,
        ) && #[trigger] owns(archetypes, indices[m], j, table_id, row) ==> k == m && i == j
}

/// What a sequence that starts with `head` contains.
proof fn lemma_contains_head<A>(head: A, rest: Seq<A>, x: A)
    ensures
        (seq![head] + rest).contains(x) <==> x == head || rest.contains(x),
{
    let whole = seq![head] + rest;
    if whole.contains(x) {
        let i = choose|i: int| 0 <= i < whole.len() && whole[i] == x;
        if i > 0 {
            assert(rest[i - 1] == x);
        }
    }
    if rest.contains(x) {
        let i = choose|i: int| 0 <= i < rest.len() && rest[i] == x;
        assert(whole[i + 1] == x);
    }
    assert(whole[0] == head);
}

/// What a concatenation contains.
proof fn lemma_contains_add<A>(a: Seq<A>, b: Seq<A>, x: A)
    ensures
        (a + b).contains(x) <==> a.contains(x) || b.contains(x),
{
    let whole = a + b;
    if whole.contains(x) {
        let i = choose|i: int| 0 <= i < whole.len() && whole[i] == x;
        if i < a.len() {
            assert(a[i] == x);
        } else {
            assert(b[i - a.len()] == x);
        }
    }
    if a.contains(x) {
        let i = choose|i: int| 0 <= i < a.len() && a[i] == x;
        assert(whole[i] == x);
    }
    if b.contains(x) {
        let i = choose|i: int| 0 <= i < b.len() && b[i] == x;
        assert(whole[i + a.len()] == x);
    }
}

/// The items of a table batch: one for each row from `from` on that passes
/// the filter, and none twice.
pub proof fn lemma_dense_batch<F: QueryFilter>(
    filter: &F,
    table: &Table,
    table_id: TableId,
    from: int,
    ticks: (u32, u32),
)
    requires
        0 <= from,
        table@.len() <= usize::MAX,
    ensures
        forall|x: QueryItem| #[trigger]
            dense_batch(filter, table, table_id, from, ticks).contains(x) <==> {
                &&& from <= x.table_row < table@.len()
                &&& x == row_item(table, table_id, x.table_row as int)
                &&& filter.accepts(table, x.entity, x.table_row, ticks.0, ticks.1)
            },
        dense_batch(filter, table, table_id, from, ticks).no_duplicates(),
    decreases table@.len() - from,
{
    let batch = dense_batch(filter, table, table_id, from, ticks);
    if from < table@.len() {
        let rest = dense_batch(filter, table, table_id, from + 1, ticks);
        lemma_dense_batch(filter, table, table_id, from + 1, ticks);
        let head = row_item(table, table_id, from);
        if filter.accepts(table, table@[from], from as usize, ticks.0, ticks.1) {
            assert(batch == seq![head] + rest);
            assert forall|x: QueryItem| #[trigger] batch.contains(x) <==> {
                &&& from <= x.table_row < table@.len()
                &&& x == row_item(table, table_id, x.table_row as int)
                &&& filter.accepts(table, x.entity, x.table_row, ticks.0, ticks.1)
            } by {
                lemma_contains_head(head, rest, x);
            }
            assert(!rest.contains(head));
            assert(seq![head].no_duplicates());
            lemma_no_dup_in_concat(seq![head], rest);
        } else {
            assert(batch == rest);
            assert forall|x: QueryItem| #[trigger] batch.contains(x) <==> {
                &&& from <= x.table_row < table@.len()
                &&& x == row_item(table, table_id, x.table_row as int)
                &&& filter.accepts(table, x.entity, x.table_row, ticks.0, ticks.1)
            } by {}
        }
    } else {
        assert(batch =~= Seq::<QueryItem>::empty());
    }
}

/// Whether the filter lets entity number `i` of `archetype` pass.
pub open spec fn entity_passes<F: QueryFilter>(
    filter: &F,
    archetype: &Archetype,
    table: &Table,
    i: int,
    ticks: (u32, u32),
) -> bool {
    filter.accepts(table, archetype@[i].entity, archetype@[i].table_row, ticks.0, ticks.1)
}

/// The items of an archetype batch: one for each entity from `from` on that
/// passes the filter, and none twice when no two entities name the same
/// row.
pub proof fn lemma_sparse_batch<F: QueryFilter>(
    filter: &F,
    archetype: &Archetype,
    table: &Table,
    from: int,
    ticks: (u32, u32),
)
    requires
        0 <= from,
        forall|i: int, j: int|
            0 <= i < j < archetype@.len() ==> archetype@[i].table_row != archetype@[j].table_row,
    ensures
        forall|x: QueryItem| #[trigger]
            sparse_batch(filter, archetype, table, from, ticks).contains(x) <==> exists|i: int|
                from <= i < archetype@.len() && x == #[trigger] entity_item(archetype, i)
                    && entity_passes(filter, archetype, table, i, ticks),
        sparse_batch(filter, archetype, table, from, ticks).no_duplicates(),
    decreases archetype@.len() - from,
{
    let batch = sparse_batch(filter, archetype, table, from, ticks);
    if from < archetype@.len() {
        let rest = sparse_batch(filter, archetype, table, from + 1, ticks);
        lemma_sparse_batch(filter, archetype, table, from + 1, ticks);
        let head = entity_item(archetype, from);
        if entity_passes(filter, archetype, table, from, ticks) {
            assert(batch == seq![head] + rest);
            assert forall|x: QueryItem| #[trigger] batch.contains(x) <==> exists|i: int|
                from <= i < archetype@.len() && x == #[trigger] entity_item(archetype, i)
                    && entity_passes(filter, archetype, table, i, ticks) by {
                lemma_contains_head(head, rest, x);
                if rest.contains(x) {
                    let i = choose|i: int|
                        from + 1 <= i < archetype@.len() && x == #[trigger] entity_item(
                            archetype,
                            i,
                        ) && entity_passes(filter, archetype, table, i, ticks);
                    assert(from <= i < archetype@.len() && x == entity_item(archetype, i));
                }
                if exists|i: int|
                    from <= i < archetype@.len() && x == #[trigger] entity_item(archetype, i)
                        && entity_passes(filter, archetype, table, i, ticks) {
                    let i = choose|i: int|
                        from <= i < archetype@.len() && x == #[trigger] entity_item(archetype, i)
                            && entity_passes(filter, archetype, table, i, ticks);
                    if i > from {
                        assert(from + 1 <= i < archetype@.len() && x == entity_item(archetype, i));
                    }
                }
            }
            assert(!rest.contains(head)) by {
                if rest.contains(head) {
                    let i = choose|i: int|
                        from + 1 <= i < archetype@.len() && head == #[trigger] entity_item(
                            archetype,
                            i,
                        ) && entity_passes(filter, archetype, table, i, ticks);
                    assert(archetype@[from].table_row != archetype@[i].table_row);
                }
            }
            assert(seq![head].no_duplicates());
            lemma_no_dup_in_concat(seq![head], rest);
        } else {
            assert(batch == rest);
            assert forall|x: QueryItem| #[trigger] batch.contains(x) <==> exists|i: int|
                from <= i < archetype@.len() && x == #[trigger] entity_item(archetype, i)
                    && entity_passes(filter, archetype, table, i, ticks) by {
                if rest.contains(x) {
                    let i = choose|i: int|
                        from + 1 <= i < archetype@.len() && x == #[trigger] entity_item(
                            archetype,
                            i,
                        ) && entity_passes(filter, archetype, table, i, ticks);
                    assert(from <= i < archetype@.len() && x == entity_item(archetype, i));
                }
                if exists|i: int|
                    from <= i < archetype@.len() && x == #[trigger] entity_item(archetype, i)
                        && entity_passes(filter, archetype, table, i, ticks) {
                    let i = choose|i: int|
                        from <= i < archetype@.len() && x == #[trigger] entity_item(archetype, i)
                            && entity_passes(filter, archetype, table, i, ticks);
                    assert(from + 1 <= i < archetype@.len() && x == entity_item(archetype, i));
                }
            }
        }
    } else {
        assert(batch =~= Seq::<QueryItem>::empty());
        assert forall|x: QueryItem| #[trigger] batch.contains(x) <==> exists|i: int|
            from <= i < archetype@.len() && x == #[trigger] entity_item(archetype, i)
                && entity_passes(filter, archetype, table, i, ticks) by {}
    }
}

/// Whether `x` is an item of the table `table_ids[q]`.
pub open spec fn in_table<F: QueryFilter>(
    filter: &F,
    tables: Seq<Table>,
    table_ids: Seq<TableId>,
    q: int,
    x: QueryItem,
    ticks: (u32, u32),
) -> bool {
    let table = tables[table_ids[q].0 as int];
    &&& x.table_row < table@.len()
    &&& x == row_item(&table, table_ids[q], x.table_row as int)
    &&& filter.accepts(&table, x.entity, x.table_row, ticks.0, ticks.1)
}

/// The items of a dense walk: the items of each table, and none twice.
pub proof fn lemma_dense_rest<F: QueryFilter>(
    filter: &F,
    tables: Seq<Table>,
    table_ids: Seq<TableId>,
    from: int,
    ticks: (u32, u32),
)
    requires
        0 <= from <= table_ids.len(),
        table_ids.no_duplicates(),
        forall|q: int| 0 <= q < table_ids.len() ==> tables[table_ids[q].0 as int]@.len() <= usize::MAX,
    ensures
        forall|x: QueryItem| #[trigger]
            dense_rest(filter, tables, table_ids, from, table_ids.len() as int, ticks).contains(x)
                <==> exists|q: int|
                from <= q < table_ids.len() && #[trigger] in_table(
                    filter,
                    tables,
                    table_ids,
                    q,
                    x,
                    ticks,
                ),
        dense_rest(filter, tables, table_ids, from, table_ids.len() as int, ticks).no_duplicates(),
    decreases table_ids.len() - from,
{
    let to = table_ids.len() as int;
    let all = dense_rest(filter, tables, table_ids, from, to, ticks);
    if from < to {
        let table = tables[table_ids[from].0 as int];
        let batch = dense_batch(filter, &table, table_ids[from], 0, ticks);
        let rest = dense_rest(filter, tables, table_ids, from + 1, to, ticks);
        lemma_dense_batch(filter, &table, table_ids[from], 0, ticks);
        lemma_dense_rest(filter, tables, table_ids, from + 1, ticks);
        assert(all == batch + rest);
        assert forall|x: QueryItem| #[trigger] all.contains(x) <==> exists|q: int|
            from <= q < table_ids.len() && #[trigger] in_table(
                filter,
                tables,
                table_ids,
                q,
                x,
                ticks,
            ) by {
            lemma_contains_add(batch, rest, x);
            if batch.contains(x) {
                assert(in_table(filter, tables, table_ids, from, x, ticks));
            }
            if rest.contains(x) {
                let q = choose|q: int|
                    from + 1 <= q < table_ids.len() && #[trigger] in_table(
                        filter,
                        tables,
                        table_ids,
                        q,
                        x,
                        ticks,
                    );
                assert(from <= q < table_ids.len() && in_table(
                    filter,
                    tables,
                    table_ids,
                    q,
                    x,
                    ticks,
                ));
            }
            if exists|q: int|
                from <= q < table_ids.len() && #[trigger] in_table(
                    filter,
                    tables,
                    table_ids,
                    q,
                    x,
                    ticks,
                ) {
                let q = choose|q: int|
                    from <= q < table_ids.len() && #[trigger] in_table(
                        filter,
                        tables,
                        table_ids,
                        q,
                        x,
                        ticks,
                    );
                if q > from {
                    assert(from + 1 <= q < table_ids.len() && in_table(
                        filter,
                        tables,
                        table_ids,
                        q,
                        x,
                        ticks,
                    ));
                }
            }
        }
        assert forall|i: int, j: int| 0 <= i < batch.len() && 0 <= j < rest.len() implies batch[i]
            != rest[j] by {
            assert(batch.contains(batch[i]));
            assert(rest.contains(rest[j]));
            let q = choose|q: int|
                from + 1 <= q < table_ids.len() && #[trigger] in_table(
                    filter,
                    tables,
                    table_ids,
                    q,
                    rest[j],
                    ticks,
                );
            assert(table_ids[q] != table_ids[from]);
        }
        lemma_no_dup_in_concat(batch, rest);
    } else {
        assert(all =~= Seq::<QueryItem>::empty());
        assert forall|x: QueryItem| #[trigger] all.contains(x) <==> exists|q: int|
            from <= q < table_ids.len() && #[trigger] in_table(
                filter,
                tables,
                table_ids,
                q,
                x,
                ticks,
            ) by {}
    }
}

/// Whether `x` is the item of entity number `i` of the archetype
/// `indices[k]`.
pub open spec fn in_archetype<F: QueryFilter>(
    filter: &F,
    archetypes: Seq<Archetype>,
    tables: Seq<Table>,
    indices: Seq<usize>,
    k: int,
    i: int,
    x: QueryItem,
    ticks: (u32, u32),
) -> bool {
    let archetype = archetypes[indices[k] as int];
    let table = tables[archetype.spec_table_id().0 as int];
    &&& 0 <= i < archetype@.len()
    &&& x == entity_item(&archetype, i)
    &&& entity_passes(filter, &archetype, &table, i, ticks)
}

/// No row is named by two entities of the archetypes `indices`.
pub open spec fn rows_owned_once(archetypes: Seq<Archetype>, indices: Seq<usize>) -> bool {
    forall|k: int, i: int, m: int, j: int, table_id: TableId, row: usize|
        0 <= k < indices.len() && 0 <= m < indices.len() && #[trigger] owns(
            archetypes,
            indices[k],
            i,
            table_id,
            row,
        ) && #[trigger] owns(archetypes, indices[m], j, table_id, row) ==> k == m && i == j
}

/// The items of a sparse walk: the items of each archetype, and none twice
/// when no row is named twice.
pub proof fn lemma_sparse_rest<F: QueryFilter>(
    filter: &F,
    archetypes: Seq<Archetype>,
    tables: Seq<Table>,
    indices: Seq<usize>,
    from: int,
    ticks: (u32, u32),
)
    requires
        0 <= from <= indices.len(),
        rows_owned_once(archetypes, indices),
    ensures
        forall|x: QueryItem| #[trigger]
            sparse_rest(
                filter,
                archetypes,
                tables,
                indices,
                from,
                indices.len() as int,
                ticks,
            ).contains(x) <==> exists|k: int, i: int|
                from <= k < indices.len() && #[trigger] in_archetype(
                    filter,
                    archetypes,
                    tables,
                    indices,
                    k,
                    i,
                    x,
                    ticks,
                ),
        sparse_rest(
            filter,
            archetypes,
            tables,
            indices,
            from,
            indices.len() as int,
            ticks,
        ).no_duplicates(),
    decreases indices.len() - from,
{
    let to = indices.len() as int;
    let all = sparse_rest(filter, archetypes, tables, indices, from, to, ticks);
    if from < to {
        let archetype = archetypes[indices[from] as int];
        let table = tables[archetype.spec_table_id().0 as int];
        let batch = sparse_batch(filter, &archetype, &table, 0, ticks);
        let rest = sparse_rest(filter, archetypes, tables, indices, from + 1, to, ticks);
        assert forall|i: int, j: int| 0 <= i < j < archetype@.len() implies archetype@[i].table_row
            != archetype@[j].table_row by {
            if archetype@[i].table_row == archetype@[j].table_row {
                assert(owns(
                    archetypes,
                    indices[from],
                    i,
                    archetype.spec_table_id(),
                    archetype@[i].table_row,
                ));
                assert(owns(
                    archetypes,
                    indices[from],
                    j,
                    archetype.spec_table_id(),
                    archetype@[i].table_row,
                ));
            }
        }
        lemma_sparse_batch(filter, &archetype, &table, 0, ticks);
        lemma_sparse_rest(filter, archetypes, tables, indices, from + 1, ticks);
        assert(all == batch + rest);
        assert forall|x: QueryItem| #[trigger] all.contains(x) <==> exists|k: int, i: int|
            from <= k < indices.len() && #[trigger] in_archetype(
                filter,
                archetypes,
                tables,
                indices,
                k,
                i,
                x,
                ticks,
            ) by {
            lemma_contains_add(batch, rest, x);
            if batch.contains(x) {
                let i = choose|i: int|
                    0 <= i < archetype@.len() && x == #[trigger] entity_item(&archetype, i)
                        && entity_passes(filter, &archetype, &table, i, ticks);
                assert(in_archetype(filter, archetypes, tables, indices, from, i, x, ticks));
            }
            if rest.contains(x) {
                let (k, i) = choose|k: int, i: int|
                    from + 1 <= k < indices.len() && #[trigger] in_archetype(
                        filter,
                        archetypes,
                        tables,
                        indices,
                        k,
                        i,
                        x,
                        ticks,
                    );
                assert(from <= k < indices.len() && in_archetype(
                    filter,
                    archetypes,
                    tables,
                    indices,
                    k,
                    i,
                    x,
                    ticks,
                ));
            }
            if exists|k: int, i: int|
                from <= k < indices.len() && #[trigger] in_archetype(
                    filter,
                    archetypes,
                    tables,
                    indices,
                    k,
                    i,
                    x,
                    ticks,
                ) {
                let (k, i) = choose|k: int, i: int|
                    from <= k < indices.len() && #[trigger] in_archetype(
                        filter,
                        archetypes,
                        tables,
                        indices,
                        k,
                        i,
                        x,
                        ticks,
                    );
                if k > from {
                    assert(from + 1 <= k < indices.len() && in_archetype(
                        filter,
                        archetypes,
                        tables,
                        indices,
                        k,
                        i,
                        x,
                        ticks,
                    ));
                } else {
                    assert(x == entity_item(&archetype, i));
                }
            }
        }
        assert forall|i: int, j: int| 0 <= i < batch.len() && 0 <= j < rest.len() implies batch[i]
            != rest[j] by {
            assert(batch.contains(batch[i]));
            assert(rest.contains(rest[j]));
            if batch[i] == rest[j] {
                let x = batch[i];
                let a = choose|a: int|
                    0 <= a < archetype@.len() && x == #[trigger] entity_item(&archetype, a)
                        && entity_passes(filter, &archetype, &table, a, ticks);
                let (k, b) = choose|k: int, b: int|
                    from + 1 <= k < indices.len() && #[trigger] in_archetype(
                        filter,
                        archetypes,
                        tables,
                        indices,
                        k,
                        b,
                        x,
                        ticks,
                    );
                assert(owns(archetypes, indices[from], a, x.table_id, x.table_row));
                assert(owns(archetypes, indices[k], b, x.table_id, x.table_row));
            }
        }
        lemma_no_dup_in_concat(batch, rest);
    } else {
        assert(all =~= Seq::<QueryItem>::empty());
        assert forall|x: QueryItem| #[trigger] all.contains(x) <==> exists|k: int, i: int|
            from <= k < indices.len() && #[trigger] in_archetype(
                filter,
                archetypes,
                tables,
                indices,
                k,
                i,
                x,
                ticks,
            ) by {}
    }
}

/// Dense and sparse walks are equivalent: where the matched tables and the
/// matched archetypes hold the same rows, walking the tables row by row and
/// walking the archetypes entity by entity yield the same items, each
/// exactly once, though in general in a different order.
pub proof fn law_dense_and_sparse_walks_agree<F: QueryFilter>(
    filter: &F,
    tables: Seq<Table>,
    archetypes: Seq<Archetype>,
    table_ids: Seq<TableId>,
    indices: Seq<usize>,
    ticks: (u32, u32),
)
    requires
        rows_consistent(tables, archetypes, table_ids, indices),
        forall|q: int| 0 <= q < table_ids.len() ==> tables[table_ids[q].0 as int]@.len() <= usize::MAX,
    ensures
        dense_rest(filter, tables, table_ids, 0, table_ids.len() as int, ticks).to_multiset()
            == sparse_rest(
            filter,
            archetypes,
            tables,
            indices,
            0,
            indices.len() as int,
            ticks,
        ).to_multiset(),
        dense_rest(filter, tables, table_ids, 0, table_ids.len() as int, ticks).no_duplicates(),
        sparse_rest(
            filter,
            archetypes,
            tables,
            indices,
            0,
            indices.len() as int,
            ticks,
        ).no_duplicates(),
{
    let dense = dense_rest(filter, tables, table_ids, 0, table_ids.len() as int, ticks);
    let sparse = sparse_rest(filter, archetypes, tables, indices, 0, indices.len() as int, ticks);
    lemma_dense_rest(filter, tables, table_ids, 0, ticks);
    lemma_sparse_rest(filter, archetypes, tables, indices, 0, ticks);
    assert forall|x: QueryItem| dense.contains(x) <==> sparse.contains(x) by {
        if dense.contains(x) {
            let q = choose|q: int|
                0 <= q < table_ids.len() && #[trigger] in_table(
                    filter,
                    tables,
                    table_ids,
                    q,
                    x,
                    ticks,
                );
            assert(row_owned(archetypes, indices, table_ids[q], x.table_row));
            let (k, i) = choose|k: int, i: int|
                0 <= k < indices.len() && #[trigger] owns(
                    archetypes,
                    indices[k],
                    i,
                    table_ids[q],
                    x.table_row,
                );
            assert(row_valid(tables, archetypes, indices[k], i));
            assert(in_archetype(filter, archetypes, tables, indices, k, i, x, ticks));
        }
        if sparse.contains(x) {
            let (k, i) = choose|k: int, i: int|
                0 <= k < indices.len() && #[trigger] in_archetype(
                    filter,
                    archetypes,
                    tables,
                    indices,
                    k,
                    i,
                    x,
                    ticks,
                );
            assert(row_valid(tables, archetypes, indices[k], i));
            let table_id = archetypes[indices[k] as int].spec_table_id();
            assert(table_ids.contains(table_id));
            let q = choose|q: int| 0 <= q < table_ids.len() && table_ids[q] == table_id;
            assert(in_table(filter, tables, table_ids, q, x, ticks));
        }
    }
    dense.lemma_multiset_has_no_duplicates();
    sparse.lemma_multiset_has_no_duplicates();
    assert forall|x: QueryItem| dense.to_multiset().count(x) == sparse.to_multiset().count(x) by {
        to_multiset_contains(dense, x);
        to_multiset_contains(sparse, x);
    }
    assert(dense.to_multiset() =~= sparse.to_multiset());
}

} // verus!
