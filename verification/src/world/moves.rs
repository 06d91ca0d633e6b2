//! Moving an entity from one archetype to another.

use crate::archetype::{ArchetypeEntity, ArchetypeId};
use crate::component::ComponentId;
use crate::entity::{Entity, EntityLocation};
use crate::storage::table::{distinct_indices, missing_before, moved_cell};
use crate::world::World;
use vstd::prelude::*;
use crate::world::despawn::with_row_moved;

verus! {

/// How a world looks after `entity`, which was entry `i0` of archetype
/// `a`, has been moved to the end of archetype `b`: in `a` the last entry
/// sits at `i0`; if the two archetypes have different tables, the entity's
/// row has moved to the end of the table of `b`, and the entity of the last
/// row of the table of `a` sits in the row that became free; and the
/// records of all entities that moved say so.
pub open spec fn moved_to(before: &World, after: &World, entity: Entity, a: int, i0: int, b: int) -> bool {
    let t = before.table_of(a);
    let t2 = before.table_of(b);
    let r0 = before.archetypes@[a]@[i0].table_row as int;
    let last_entry = before.archetypes@[a]@.len() - 1;
    let last_row = before.storages.tables@[t]@.len() - 1;
    let swapped = before.archetypes@[a]@[last_entry].entity;
    let new_entry = before.archetypes@[b]@.len() as int;
    let new_row = if t == t2 {
        r0
    } else {
        before.storages.tables@[t2]@.len() as int
    };
    &&& after.archetypes@.len() == before.archetypes@.len()
    &&& after.storages.tables@.len() == before.storages.tables@.len()
    &&& after.entities@.len() == before.entities@.len()
    &&& forall|c: int| 0 <= c < before.archetypes@.len() ==> #[trigger] after.table_of(c)
        == before.table_of(c)
    &&& forall|c: int|
        0 <= c < before.archetypes@.len() ==> (#[trigger] after.archetypes@[c])@.len() == if c == a {
            last_entry
        } else if c == b {
            new_entry + 1
        } else {
            before.archetypes@[c]@.len() as int
        }
    &&& after.archetypes@[b]@[new_entry].entity == entity
    &&& after.archetypes@[b]@[new_entry].table_row == new_row
    &&& forall|c: int, i: int|
        0 <= c < before.archetypes@.len() && 0 <= i < after.archetypes@[c]@.len() && !(c == b && i
            == new_entry) ==> #[trigger] after.archetypes@[c]@[i] == with_row_moved(
            if c == a && i == i0 {
                before.archetypes@[c]@[last_entry]
            } else {
                before.archetypes@[c]@[i]
            },
            before.table_of(c),
            if t == t2 {
                -1
            } else {
                t
            },
            last_row,
            r0,
        )
    &&& forall|u: int|
        0 <= u < before.storages.tables@.len() && (t == t2 || (u != t && u != t2)) ==> (
        #[trigger] after.storages.tables@[u])@ == before.storages.tables@[u]@
    &&& t != t2 ==> after.storages.tables@[t]@ == before.storages.tables@[t]@.update(
        r0,
        before.storages.tables@[t]@.last(),
    ).drop_last() && after.storages.tables@[t2]@ == before.storages.tables@[t2]@.push(entity)
    &&& forall|slot: int|
        0 <= slot < before.entities@.len() && slot != entity.index && !(i0 != last_entry && slot
            == swapped.index) ==> #[trigger] after.entities@[slot] == before.entities@[slot]
    &&& i0 != last_entry ==> {
        let meta = after.entities@[swapped.index as int];
        &&& meta.live
        &&& meta.generation == swapped.generation
        &&& meta.location matches Some(location) && location.archetype_id.spec_index() == a
            && location.index == i0
    }
    &&& {
        let meta = after.entities@[entity.index as int];
        &&& meta.live
        &&& meta.generation == entity.generation
        &&& meta.location matches Some(location) && location.archetype_id.spec_index() == b
            && location.index == new_entry
    }
}

/// Where entry `i` of archetype `c` of the world after the move comes from,
/// and what is recorded for its entity.
proof fn lemma_moved_source(
    before: &World,
    after: &World,
    entity: Entity,
    a: int,
    i0: int,
    b: int,
    c: int,
    i: int,
)
    requires
        before.rows_wf(),
        before.entities.location_of(entity) matches Some(location)
            && location.archetype_id.spec_index() == a && location.index == i0,
        0 <= b < before.archetypes@.len(),
        a != b,
        moved_to(before, after, entity, a, i0, b),
        0 <= c < after.archetypes@.len(),
        0 <= i < after.archetypes@[c]@.len(),
        !(c == b && i == before.archetypes@[b]@.len()),
    ensures
        ({
            let source = if c == a && i == i0 {
                before.archetypes@[a]@.len() - 1
            } else {
                i
            };
            let entry = before.archetypes@[c]@[source];
            let t = before.table_of(a);
            let t2 = before.table_of(b);
            let r0 = before.archetypes@[a]@[i0].table_row as int;
            let last_row = before.storages.tables@[t]@.len() - 1;
            &&& 0 <= source < before.archetypes@[c]@.len()
            &&& !(c == a && source == i0)
            &&& before.entry_consistent(c, source)
            &&& entry.entity != entity
            &&& after.archetypes@[c]@[i].entity == entry.entity
            &&& after.archetypes@[c]@[i].table_row == if t != t2 && before.table_of(c) == t
                && entry.table_row == last_row {
                r0 as usize
            } else {
                entry.table_row
            }
            &&& !(before.table_of(c) == t && entry.table_row == r0)
            &&& after.entities.location_of(entry.entity) matches Some(location)
                && location.archetype_id.spec_index() == c && location.index == i
        }),
{
    let last_entry = before.archetypes@[a]@.len() - 1;
    let source = if c == a && i == i0 {
        last_entry
    } else {
        i
    };
    assert(before.location_consistent(entity.index as int));
    before.lemma_row_owner(a, i0);
    before.lemma_row_owner(a, last_entry);
    before.lemma_row_owner(c, source);
    let entry = before.archetypes@[c]@[source];
    let swapped = before.archetypes@[a]@[last_entry].entity;
    let t = before.table_of(a);
    let t2 = before.table_of(b);
    assert(after.archetypes@[c]@[i] == with_row_moved(
        entry,
        before.table_of(c),
        if t == t2 {
            -1
        } else {
            t
        },
        before.storages.tables@[t]@.len() - 1,
        before.archetypes@[a]@[i0].table_row as int,
    ));
    assert(0 <= before.table_of(c));
    if entry.entity.index == entity.index {
        assert(entry.entity == entity);
    }
    if i0 != last_entry && entry.entity.index == swapped.index {
        assert(entry.entity == swapped);
        assert(c == a && source == last_entry);
    } else {
        assert(after.entities@[entry.entity.index as int] == before.entities@[entry.entity.index as int]);
    }
}

proof fn lemma_moved_entry(
    before: &World,
    after: &World,
    entity: Entity,
    a: int,
    i0: int,
    b: int,
    c: int,
    i: int,
)
    requires
        before.rows_wf(),
        before.entities.location_of(entity) matches Some(location)
            && location.archetype_id.spec_index() == a && location.index == i0,
        0 <= b < before.archetypes@.len(),
        a != b,
        moved_to(before, after, entity, a, i0, b),
        0 <= c < after.archetypes@.len(),
        0 <= i < after.archetypes@[c]@.len(),
    ensures
        after.entry_consistent(c, i),
{
    assert(before.location_consistent(entity.index as int));
    let t = before.table_of(a);
    let t2 = before.table_of(b);
    let r0 = before.archetypes@[a]@[i0].table_row as int;
    let last_row = before.storages.tables@[t]@.len() - 1;
    before.lemma_row_owner(a, i0);
    assert(after.table_of(c) == before.table_of(c));
    assert(0 <= before.table_of(c) < before.storages.tables@.len());
    assert(0 <= t2 < before.storages.tables@.len());
    if c == b && i == before.archetypes@[b]@.len() {
        if t == t2 {
            assert(after.storages.tables@[t]@ == before.storages.tables@[t]@);
        }
    } else {
        lemma_moved_source(before, after, entity, a, i0, b, c, i);
        let source = if c == a && i == i0 {
            before.archetypes@[a]@.len() - 1
        } else {
            i
        };
        let entry = before.archetypes@[c]@[source];
        let u = before.table_of(c);
        if t != t2 && u == t {
            if entry.table_row == last_row {
                assert(after.storages.tables@[t]@[r0] == before.storages.tables@[t]@[last_row]);
            } else {
                assert(after.storages.tables@[t]@[entry.table_row as int]
                    == before.storages.tables@[t]@[entry.table_row as int]);
            }
        } else if t != t2 && u == t2 {
            assert(after.storages.tables@[t2]@[entry.table_row as int]
                == before.storages.tables@[t2]@[entry.table_row as int]);
        } else {
            assert(after.storages.tables@[u]@ == before.storages.tables@[u]@);
        }
    }
}

proof fn lemma_moved_row(
    before: &World,
    after: &World,
    entity: Entity,
    a: int,
    i0: int,
    b: int,
    u: int,
    r: int,
)
    requires
        before.rows_wf(),
        before.entities.location_of(entity) matches Some(location)
            && location.archetype_id.spec_index() == a && location.index == i0,
        0 <= b < before.archetypes@.len(),
        a != b,
        moved_to(before, after, entity, a, i0, b),
        0 <= u < after.storages.tables@.len(),
        0 <= r < after.storages.tables@[u]@.len(),
    ensures
        after.row_consistent(u, r),
{
    let t = before.table_of(a);
    let t2 = before.table_of(b);
    let r0 = before.archetypes@[a]@[i0].table_row as int;
    let last_entry = before.archetypes@[a]@.len() - 1;
    let last_row = before.storages.tables@[t]@.len() - 1;
    let new_entry = before.archetypes@[b]@.len() as int;
    assert(before.location_consistent(entity.index as int));
    before.lemma_row_owner(a, i0);
    assert(0 <= t < before.storages.tables@.len());
    assert(0 <= t2 < before.storages.tables@.len());
    assert(after.table_of(b) == t2);
    if t == t2 && u == t && r == r0 {
        // the row stays where it is and now belongs to the new entry
        assert(after.storages.tables@[t]@ == before.storages.tables@[t]@);
    } else if t != t2 && u == t2 && r == before.storages.tables@[t2]@.len() {
    } else {
        let source = if t != t2 && u == t && r == r0 {
            last_row
        } else {
            r
        };
        if t == t2 || (u != t && u != t2) {
            assert(after.storages.tables@[u]@ == before.storages.tables@[u]@);
        }
        let x = before.storages.tables@[u]@[source];
        assert(after.storages.tables@[u]@[r] == x);
        let place = before.lemma_entry_of_row(u, source);
        assert(!(place.0 == a && place.1 == i0));
        let i = if place.0 == a && place.1 == last_entry {
            i0
        } else {
            place.1
        };
        assert(0 <= i < after.archetypes@[place.0]@.len());
        lemma_moved_source(before, after, entity, a, i0, b, place.0, i);
        assert(after.table_of(place.0) == before.table_of(place.0));
    }
}

proof fn lemma_moved_slot(before: &World, after: &World, entity: Entity, a: int, i0: int, b: int, slot: int)
    requires
        before.rows_wf(),
        before.entities.location_of(entity) matches Some(location)
            && location.archetype_id.spec_index() == a && location.index == i0,
        0 <= b < before.archetypes@.len(),
        a != b,
        moved_to(before, after, entity, a, i0, b),
        0 <= slot < after.entities@.len(),
    ensures
        after.location_consistent(slot),
{
    let last_entry = before.archetypes@[a]@.len() - 1;
    let swapped = before.archetypes@[a]@[last_entry].entity;
    assert(before.location_consistent(entity.index as int));
    before.lemma_row_owner(a, i0);
    before.lemma_row_owner(a, last_entry);
    let meta = after.entities@[slot];
    if meta.live && meta.location is Some {
        if slot == entity.index {
        } else if i0 != last_entry && slot == swapped.index {
            lemma_moved_source(before, after, entity, a, i0, b, a, i0);
        } else {
            assert(meta == before.entities@[slot]);
            assert(before.location_consistent(slot));
            let location = meta.location->0;
            let c = location.archetype_id.spec_index() as int;
            let x = Entity { index: slot as u32, generation: meta.generation };
            assert(before.entities.location_of(x) == Some(location));
            before.lemma_row_owner(c, location.index as int);
            assert(!(c == a && location.index == i0));
            assert(!(c == a && location.index == last_entry && i0 != last_entry));
            lemma_moved_source(before, after, entity, a, i0, b, c, location.index as int);
        }
    }
}

/// A world in which an entity has been moved to another archetype is
/// well-formed again.
pub proof fn lemma_moved(before: &World, after: &World, entity: Entity, a: int, i0: int, b: int)
    requires
        before.rows_wf(),
        before.entities.location_of(entity) matches Some(location)
            && location.archetype_id.spec_index() == a && location.index == i0,
        0 <= b < before.archetypes@.len(),
        a != b,
        moved_to(before, after, entity, a, i0, b),
        after.entities.wf(),
        after.archetypes.wf(),
        after.storages.tables.wf(),
        after.archetypes.identities() == before.archetypes.identities(),
        after.storages.tables.keys() == before.storages.tables.keys(),
    ensures
        after.rows_wf(),
{
    assert forall|c: int| 0 <= c < after.archetypes@.len() implies 0 <= #[trigger] after.table_of(c)
        < after.storages.tables@.len() && after.storages.tables.keys()[after.table_of(c)]
        == after.archetypes.identities()[c].0 by {
        assert(after.table_of(c) == before.table_of(c));
        assert(0 <= before.table_of(c) < before.storages.tables@.len());
    }
    assert forall|c: int, i: int|
        0 <= c < after.archetypes@.len() && 0 <= i
            < after.archetypes@[c]@.len() implies #[trigger] after.entry_consistent(c, i) by {
        lemma_moved_entry(before, after, entity, a, i0, b, c, i);
    }
    assert forall|u: int, r: int|
        0 <= u < after.storages.tables@.len() && 0 <= r
            < after.storages.tables@[u]@.len() implies #[trigger] after.row_consistent(u, r) by {
        lemma_moved_row(before, after, entity, a, i0, b, u, r);
    }
    assert forall|slot: int| 0 <= slot < after.entities@.len() implies #[trigger] after.location_consistent(
        slot,
    ) by {
        lemma_moved_slot(before, after, entity, a, i0, b, slot);
    }
}

/// How the cells of the tables of a world look after an entity has been
/// moved from row `row` of table `t` to the end of table `t2`: the gap is
/// closed by the last row of `t`, `t2` has one row more, and all other rows
/// and tables are as they were.
pub open spec fn cells_moved(before: &World, after: &World, t: int, t2: int, row: int) -> bool {
    &&& t == t2 ==> after.storages.tables@ == before.storages.tables@
    &&& forall|u: int|
        0 <= u < before.storages.tables@.len() && u != t && u != t2 ==> #[trigger] after.storages.tables@[u]
            == before.storages.tables@[u]
    &&& t != t2 ==> {
        &&& forall|i: int|
            0 <= i < before.storages.tables@[t].column_cells().len()
                ==> #[trigger] after.storages.tables@[t].column_cells()[i]
                == before.storages.tables@[t].column_cells()[i].update(
                row,
                before.storages.tables@[t].column_cells()[i].last(),
            ).drop_last()
        &&& forall|j: int|
            0 <= j < before.storages.tables@[t2].column_cells().len() ==> (
            #[trigger] after.storages.tables@[t2].column_cells()[j]).drop_last()
                == before.storages.tables@[t2].column_cells()[j]
    }
}

/// A move leaves the values of every other entity with that entity.
pub proof fn lemma_moved_frame(
    before: &World,
    after: &World,
    entity: Entity,
    a: int,
    i0: int,
    b: int,
    other: Entity,
    id: ComponentId,
)
    requires
        before.wf(),
        after.wf(),
        before.entities.location_of(entity) matches Some(location)
            && location.archetype_id.spec_index() == a && location.index == i0,
        0 <= b < before.archetypes@.len(),
        a != b,
        moved_to(before, after, entity, a, i0, b),
        cells_moved(
            before,
            after,
            before.table_of(a),
            before.table_of(b),
            before.archetypes@[a]@[i0].table_row as int,
        ),
        after.archetypes.identities() == before.archetypes.identities(),
        after.storages.tables.keys() == before.storages.tables.keys(),
        after.storages.sparse_sets == before.storages.sparse_sets,
        other != entity,
    ensures
        after.cell_of(other, id) == before.cell_of(other, id),
{
    let t = before.table_of(a);
    let t2 = before.table_of(b);
    let r0 = before.archetypes@[a]@[i0].table_row as int;
    let last_entry = before.archetypes@[a]@.len() - 1;
    let last_row = before.storages.tables@[t]@.len() - 1;
    let swapped = before.archetypes@[a]@[last_entry].entity;
    assert(before.location_consistent(entity.index as int));
    before.lemma_row_owner(a, i0);
    before.lemma_row_owner(a, last_entry);
    assert(0 <= t2 < before.storages.tables@.len());
    if other.index < before.entities@.len() && other.index == entity.index {
        // another handle of the slot of `entity` is not live
        assert(before.entities.location_of(other) is None);
        assert(after.entities.location_of(other) is None);
    } else if before.entities.location_of(other) is Some {
        let location = before.entities.location_of(other)->0;
        let c = location.archetype_id.spec_index() as int;
        let i = location.index as int;
        assert(before.location_consistent(other.index as int));
        before.lemma_row_owner(c, i);
        let key = before.archetypes.identities()[c];
        let u = before.table_of(c);
        let r = before.archetypes@[c]@[i].table_row as int;
        // where the other entity is now
        let i2 = if c == a && i == last_entry {
            i0
        } else {
            i
        };
        assert(!(c == a && i == i0));
        lemma_moved_source(before, after, entity, a, i0, b, c, i2);
        assert(after.entities.location_of(other) matches Some(now) && now.archetype_id.spec_index()
            == c && now.index == i2);
        assert(after.table_of(c) == u);
        let r2 = after.archetypes@[c]@[i2].table_row as int;
        if key.0.contains(id) && !key.1.contains(id) {
            assert(ComponentId(id.0) == id);
            assert(before.storages.tables.keys()[u] == key.0);
            assert(before.storages.tables@[u].wf());
            assert(after.storages.tables@[u].wf());
            before.storages.tables@[u].lemma_wf();
            after.storages.tables@[u].lemma_wf();
            assert(before.storages.tables@[u].has(id.0));
            assert(after.storages.tables@[u].has(id.0));
            assert(after.storages.tables@[u].column_ids()
                == before.storages.tables@[u].column_ids());
            let ids = before.storages.tables@[u].column_ids();
            let j = choose|j: int| 0 <= j < ids.len() && ids[j] == id.0;
            assert(before.storages.tables@[u].cells_of(id.0)
                == before.storages.tables@[u].column_cells()[j]);
            assert(after.storages.tables@[u].cells_of(id.0)
                == after.storages.tables@[u].column_cells()[j]);
            if t != t2 && u == t {
                assert(after.storages.tables@[t].column_cells()[j]
                    == before.storages.tables@[t].column_cells()[j].update(
                    r0,
                    before.storages.tables@[t].column_cells()[j].last(),
                ).drop_last());
            } else if t != t2 && u == t2 {
                assert(after.storages.tables@[t2].column_cells()[j].drop_last()
                    == before.storages.tables@[t2].column_cells()[j]);
                assert(after.storages.tables@[t2].column_cells()[j].drop_last()[r]
                    == after.storages.tables@[t2].column_cells()[j][r]);
            }
        }
    } else {
        // the other entity is not placed, before and after
        if other.index < before.entities@.len() {
            if i0 != last_entry && other.index == swapped.index {
                assert(before.entities@[swapped.index as int].live);
                if before.entities@[other.index as int].generation == other.generation {
                    assert(other == swapped);
                }
            } else {
                assert(after.entities@[other.index as int] == before.entities@[other.index as int]);
            }
        }
    }
}

impl World {
    /// Moves `entity` to the end of the archetype `destination`, which must
    /// not be the archetype it is in. An entity that is not live or not
    /// placed is refused and nothing changes.
    ///
    /// The entity's entry is removed from its archetype by moving the last
    /// entry into its place. If the two archetypes share a table, the
    /// entity keeps its row. Otherwise the row moves to the end of the table
    /// of `destination`, see [`Table::move_to`]: shared columns keep their
    /// values, columns that only the new table has are filled from `added`
    /// at `change_tick`, and the last row of the old table closes the gap.
    /// The records of all entities that moved are brought up to date, and
    /// the values of all other entities stay with them.
    pub fn move_entity(
        &mut self,
        entity: Entity,
        destination: ArchetypeId,
        added: Vec<Vec<u8>>,
        change_tick: u32,
    ) -> (moved: bool)
        requires
            old(self).wf(),
            destination.spec_index() < old(self).archetypes@.len(),
            old(self).entities.location_of(entity) matches Some(location) ==> {
                let a = location.archetype_id.spec_index() as int;
                let b = destination.spec_index() as int;
                &&& a != b
                &&& old(self).table_of(a) != old(self).table_of(b) ==> added@.len()
                    == missing_before(
                    &old(self).storages.tables@[old(self).table_of(a)],
                    old(self).storages.tables@[old(self).table_of(b)].column_ids(),
                    old(self).storages.tables@[old(self).table_of(b)].column_ids().len() as int,
                )
            },
        ensures
            final(self).wf(),
            moved == old(self).entities.location_of(entity) is Some,
            !moved ==> *final(self) == *old(self),
            final(self).archetypes.identities() == old(self).archetypes.identities(),
            final(self).storages.tables.keys() == old(self).storages.tables.keys(),
            final(self).storages.resources == old(self).storages.resources,
            final(self).catalog_kept(old(self)),
            final(self).storages.sparse_sets == old(self).storages.sparse_sets,
            forall|other: Entity|
                old(self).entities.is_live(other) == #[trigger] final(self).entities.is_live(other),
            old(self).entities.location_of(entity) matches Some(location) ==> cells_moved(
                old(self),
                final(self),
                old(self).table_of(location.archetype_id.spec_index() as int),
                old(self).table_of(destination.spec_index() as int),
                old(self).archetypes@[location.archetype_id.spec_index(
                    ) as int]@[location.index as int].table_row as int,
            ),
            forall|other: Entity, id: ComponentId|
                other != entity ==> #[trigger] final(self).cell_of(other, id) == old(self).cell_of(
                    other,
                    id,
                ),
            old(self).entities.location_of(entity) matches Some(location) ==> {
                let a = location.archetype_id.spec_index() as int;
                let b = destination.spec_index() as int;
                let t = old(self).table_of(a);
                let t2 = old(self).table_of(b);
                let row = old(self).archetypes@[a]@[location.index as int].table_row as int;
                &&& moved_to(old(self), final(self), entity, a, location.index as int, b)
                &&& t == t2 ==> final(self).storages.tables@ == old(self).storages.tables@
                &&& forall|u: int|
                    0 <= u < old(self).storages.tables@.len() && u != t && u != t2
                        ==> #[trigger] final(self).storages.tables@[u]
                        == old(self).storages.tables@[u]
                &&& t != t2 ==> forall|i: int|
                    0 <= i < old(self).storages.tables@[t].column_cells().len()
                        ==> #[trigger] final(self).storages.tables@[t].column_cells()[i]
                        == old(self).storages.tables@[t].column_cells()[i].update(
                        row,
                        old(self).storages.tables@[t].column_cells()[i].last(),
                    ).drop_last()
                &&& t != t2 ==> forall|j: int|
                    0 <= j < old(self).storages.tables@[t2].column_cells().len()
                        ==> #[trigger] final(self).storages.tables@[t2].column_cells()[j]
                            == old(self).storages.tables@[t2].column_cells()[j].push(
                        moved_cell(
                            &old(self).storages.tables@[t],
                            old(self).storages.tables@[t2].column_ids(),
                            added@,
                            row,
                            j,
                            change_tick,
                        ),
                    )
            },
    {
        let location = match self.entities.get(entity) {
            Some(location) => location,
            None => {
                return false;
            },
        };
        let ghost before = *old(self);
        let ghost a = location.archetype_id.spec_index() as int;
        let ghost b = destination.spec_index() as int;
        let ghost i0 = location.index as int;
        assert(before.location_consistent(entity.index as int));
        let ghost t = before.table_of(a);
        let ghost t2 = before.table_of(b);
        let ghost r0 = before.archetypes@[a]@[i0].table_row as int;
        let ghost last_entry = before.archetypes@[a]@.len() - 1;
        let ghost last_row = before.storages.tables@[t]@.len() - 1;
        let ghost new_entry = before.archetypes@[b]@.len() as int;
        proof {
            before.lemma_row_owner(a, i0);
            before.lemma_row_owner(a, last_entry);
            assert(0 <= before.table_of(b) < before.storages.tables@.len());
            assert(before.storages.tables@[t].wf());
            assert(before.storages.tables@[t2].wf());
        }
        let source = location.archetype_id;
        let removed = self.archetypes.index_mut(source).swap_remove(location.index);
        match removed.swapped_entity {
            Some(swapped) => {
                self.entities.set(
                    swapped.index(),
                    EntityLocation { archetype_id: source, index: location.index },
                );
            },
            None => {},
        }
        let ghost middle = *self;
        proof {
            assert(middle.archetypes@[a]@.len() == last_entry);
            assert forall|c: int| 0 <= c < before.archetypes@.len() && c != a implies middle.archetypes@[c]
                == before.archetypes@[c] by {}
            assert forall|i: int| 0 <= i < last_entry implies middle.archetypes@[a]@[i]
                == before.archetypes@[a]@[if i == i0 {
                last_entry
            } else {
                i
            }] by {}
        }
        let source_table = self.archetypes.index(source).table_id();
        let destination_table = self.archetypes.index(destination).table_id();
        let ghost added_view = added@;
        let ghost place = (0int, 0int);
        let ghost fix = false;
        let new_row: usize = if source_table.0 == destination_table.0 {
            removed.table_row
        } else {
            let (src, dst) = self.storages.tables.get_2_mut(source_table, destination_table);
            let result = src.move_to(removed.table_row, dst, added, change_tick);
            match result.swapped_entity {
                Some(moved_entity) => {
                    proof {
                        fix = true;
                        place = before.lemma_entry_of_row(t, last_row);
                        assert(moved_entity == before.storages.tables@[t]@[last_row]);
                        assert(!(place.0 == a && place.1 == i0));
                        if i0 != last_entry && place.0 == a && place.1 == last_entry {
                            place = (a, i0);
                        } else {
                            assert(middle.entities@[moved_entity.index as int]
                                == before.entities@[moved_entity.index as int]);
                        }
                        assert(0 <= place.1 < middle.archetypes@[place.0]@.len());
                    }
                    let moved_location = match self.entities.get(moved_entity) {
                        Some(moved_location) => moved_location,
                        None => vstd::pervasive::unreached(),
                    };
                    assert(moved_location.archetype_id.spec_index() == place.0
                        && moved_location.index == place.1);
                    self.archetypes.index_mut(moved_location.archetype_id).set_entity_table_row(
                        moved_location.index,
                        removed.table_row,
                    );
                },
                None => {},
            }
            result.new_row
        };
        let ghost fixed = *self;
        proof {
            assert forall|c: int, i: int|
                0 <= c < before.archetypes@.len() && 0 <= i
                    < middle.archetypes@[c]@.len() implies fixed.archetypes@[c]@.len()
                == middle.archetypes@[c]@.len() && #[trigger] fixed.archetypes@[c]@[i] == if fix
                && c == place.0 && i == place.1 {
                ArchetypeEntity { entity: middle.archetypes@[c]@[i].entity, table_row: r0 as usize }
            } else {
                middle.archetypes@[c]@[i]
            } by {}
            assert forall|c: int| 0 <= c < before.archetypes@.len() implies (
            #[trigger] fixed.archetypes@[c])@.len() == middle.archetypes@[c]@.len() by {
                if middle.archetypes@[c]@.len() > 0 {
                    assert(fixed.archetypes@[c]@[0] == fixed.archetypes@[c]@[0]);
                }
            }
            assert(fix ==> t != t2 && r0 != last_row);
            assert(!fix ==> t == t2 || r0 == last_row);
        }
        let new_location = self.archetypes.index_mut(destination).allocate(entity, new_row);
        self.entities.set(entity.index(), new_location);
        proof {
            let after = *self;
            assert(after.archetypes.wf()) by {
                assert forall|c: int| 0 <= c < after.archetypes@.len() implies (
                #[trigger] after.archetypes@[c]).wf() && after.archetypes@[c].spec_id().spec_index()
                    == c && after.archetypes@[c].slots() == before.archetypes@[c].slots()
                    && after.archetypes@[c].component_order()
                    == before.archetypes@[c].component_order() by {
                    assert(before.archetypes@[c].wf());
                    assert(middle.archetypes@[c].wf());
                    assert(fixed.archetypes@[c].wf());
                }
            }
            assert(after.storages.tables.wf()) by {
                assert forall|u: int| 0 <= u < after.storages.tables@.len() implies (
                #[trigger] after.storages.tables@[u]).wf() && after.storages.tables@[u].column_ids()
                    == distinct_indices(Seq::empty(), after.storages.tables.keys()[u]) by {
                    assert(before.storages.tables@[u].wf());
                }
                assert forall|u: int, k: usize| 0 <= u < after.storages.tables@.len() implies ((
                #[trigger] after.storages.tables@[u]).has(k)
                    <==> #[trigger] after.storages.tables.keys()[u].contains(ComponentId(k))) by {
                    assert(before.storages.tables@[u].has(k)
                        <==> before.storages.tables.keys()[u].contains(ComponentId(k)));
                }
            }
            assert forall|c: int| 0 <= c < before.archetypes@.len() implies #[trigger] after.table_of(
                c,
            ) == before.table_of(c) by {
                assert(middle.table_of(c) == before.table_of(c));
                assert(fixed.table_of(c) == middle.table_of(c));
            }
            assert forall|c: int| 0 <= c < before.archetypes@.len() implies (
            #[trigger] after.archetypes@[c])@.len() == if c == a {
                last_entry
            } else if c == b {
                new_entry + 1
            } else {
                before.archetypes@[c]@.len() as int
            } by {
                assert(fixed.archetypes@[c]@.len() == middle.archetypes@[c]@.len());
            }
            assert forall|c: int, i: int|
                0 <= c < before.archetypes@.len() && 0 <= i < after.archetypes@[c]@.len() && !(c
                    == b && i == new_entry) implies #[trigger] after.archetypes@[c]@[i]
                == with_row_moved(
                if c == a && i == i0 {
                    before.archetypes@[c]@[last_entry]
                } else {
                    before.archetypes@[c]@[i]
                },
                before.table_of(c),
                if t == t2 {
                    -1
                } else {
                    t
                },
                last_row,
                r0,
            ) by {
                let source = if c == a && i == i0 {
                    last_entry
                } else {
                    i
                };
                assert(middle.archetypes@[c]@[i] == before.archetypes@[c]@[source]);
                assert(fixed.archetypes@[c]@[i] == if fix && c == place.0 && i == place.1 {
                    ArchetypeEntity {
                        entity: middle.archetypes@[c]@[i].entity,
                        table_row: r0 as usize,
                    }
                } else {
                    middle.archetypes@[c]@[i]
                });
                assert(after.archetypes@[c]@[i] == fixed.archetypes@[c]@[i]);
                before.lemma_row_owner(c, source);
                before.lemma_row_owner(a, i0);
                assert(0 <= before.table_of(c));
                if t != t2 && before.table_of(c) == t && before.archetypes@[c]@[source].table_row
                    == last_row {
                    let owner = before.lemma_entry_of_row(t, last_row);
                    assert(owner.0 == c && owner.1 == source);
                    assert(r0 != last_row);
                } else if fix {
                    let owner = before.lemma_entry_of_row(t, last_row);
                    assert(!(owner.0 == c && owner.1 == source));
                }
            }
            assert(moved_to(&before, &after, entity, a, i0, b));
            lemma_moved(&before, &after, entity, a, i0, b);
            assert(after.catalog_kept(&before)) by {
                assert forall|c: int| 0 <= c < before.archetypes@.len() implies (
                #[trigger] after.archetypes@[c]).spec_edges() == before.archetypes@[c].spec_edges() by {
                    assert(middle.archetypes@[c].spec_edges() == before.archetypes@[c].spec_edges());
                    assert(fixed.archetypes@[c].spec_edges() == middle.archetypes@[c].spec_edges());
                }
            }
            after.lemma_catalog_kept(&before);
            assert(after.storages.tables == fixed.storages.tables);
            assert(cells_moved(&before, &after, t, t2, r0)) by {
                if t != t2 {
                    assert forall|j: int|
                        0 <= j < before.storages.tables@[t2].column_cells().len() implies (
                    #[trigger] after.storages.tables@[t2].column_cells()[j]).drop_last()
                        == before.storages.tables@[t2].column_cells()[j] by {
                        assert(after.storages.tables@[t2].column_cells()[j]
                            == before.storages.tables@[t2].column_cells()[j].push(
                            moved_cell(
                                &before.storages.tables@[t],
                                before.storages.tables@[t2].column_ids(),
                                added_view,
                                r0,
                                j,
                                change_tick,
                            ),
                        ));
                        assert(after.storages.tables@[t2].column_cells()[j].drop_last()
                            =~= before.storages.tables@[t2].column_cells()[j]);
                    }
                }
            }
            assert forall|other: Entity, id: ComponentId| other != entity implies #[trigger] after.cell_of(
                other,
                id,
            ) == before.cell_of(other, id) by {
                lemma_moved_frame(&before, &after, entity, a, i0, b, other, id);
            }
            assert forall|other: Entity| before.entities.is_live(other) == #[trigger] after.entities.is_live(
                other,
            ) by {
                let swapped = before.archetypes@[a]@[last_entry].entity;
                if other.index < before.entities@.len() {
                    if other.index == entity.index {
                    } else if i0 != last_entry && other.index == swapped.index {
                        assert(before.entities.location_of(swapped) is Some);
                    } else {
                        assert(after.entities@[other.index as int]
                            == before.entities@[other.index as int]);
                    }
                }
            }
        }
        true
    }
}

} // verus!
