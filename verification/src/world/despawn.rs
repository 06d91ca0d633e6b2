//! Despawning: taking an entity out of its archetype and its table.

use crate::archetype::ArchetypeEntity;
use crate::component::ComponentId;
use crate::entity::{Entity, EntityLocation};
use crate::storage::table::distinct_indices;
use crate::world::World;
use vstd::prelude::*;

verus! {

/// `entry` with its table row set to `to` if it names the row `from` of
/// table `t`, where `table` is the table of the entry's archetype.
pub open spec fn with_row_moved(
    entry: ArchetypeEntity,
    table: int,
    t: int,
    from: int,
    to: int,
) -> ArchetypeEntity {
    if table == t && entry.table_row == from {
        ArchetypeEntity { entity: entry.entity, table_row: to as usize }
    } else {
        entry
    }
}

/// How a world looks after `entity`, which was entry `i0` of archetype
/// `a`, in row `r0` of table `t`, has been taken out of its archetype and
/// its table: the last entry of the archetype sits at `i0` and the entity
/// of the last row of the table sits in row `r0`, and the records of both
/// say so.
pub open spec fn taken_out(before: &World, after: &World, entity: Entity, a: int, i0: int) -> bool {
    let t = before.table_of(a);
    let r0 = before.archetypes@[a]@[i0].table_row as int;
    let last_entry = before.archetypes@[a]@.len() - 1;
    let last_row = before.storages.tables@[t]@.len() - 1;
    let swapped = before.archetypes@[a]@[last_entry].entity;
    &&& after.archetypes@.len() == before.archetypes@.len()
    &&& after.storages.tables@.len() == before.storages.tables@.len()
    &&& after.entities@.len() == before.entities@.len()
    &&& forall|b: int| 0 <= b < before.archetypes@.len() ==> #[trigger] after.table_of(b)
        == before.table_of(b)
    &&& forall|b: int|
        0 <= b < before.archetypes@.len() ==> (#[trigger] after.archetypes@[b])@.len() == if b == a {
            last_entry
        } else {
            before.archetypes@[b]@.len() as int
        }
    &&& forall|b: int, i: int|
        0 <= b < before.archetypes@.len() && 0 <= i < after.archetypes@[b]@.len()
            ==> #[trigger] after.archetypes@[b]@[i] == with_row_moved(
            if b == a && i == i0 {
                before.archetypes@[b]@[last_entry]
            } else {
                before.archetypes@[b]@[i]
            },
            before.table_of(b),
            t,
            last_row,
            r0,
        )
    &&& forall|u: int|
        0 <= u < before.storages.tables@.len() && u != t ==> (#[trigger] after.storages.tables@[u])@
            == before.storages.tables@[u]@
    &&& after.storages.tables@[t]@ == before.storages.tables@[t]@.update(
        r0,
        before.storages.tables@[t]@.last(),
    ).drop_last()
    &&& forall|slot: int|
        0 <= slot < before.entities@.len() && slot != entity.index && !(i0 != last_entry && slot
            == swapped.index) ==> #[trigger] after.entities@[slot] == before.entities@[slot]
    &&& i0 != last_entry ==> {
        let meta = after.entities@[swapped.index as int];
        &&& meta.live
        &&& meta.generation == swapped.generation
        &&& meta.location matches Some(location) && location.archetype_id.spec_index() == a
            && location.index == i0
    }
    &&& !after.entities@[entity.index as int].live
}

/// A world from which an entity has been taken out is well-formed again.
pub proof fn lemma_taken_out(before: &World, after: &World, entity: Entity, a: int, i0: int)
    requires
        before.rows_wf(),
        before.entities.location_of(entity) matches Some(location)
            && location.archetype_id.spec_index() == a && location.index == i0,
        taken_out(before, after, entity, a, i0),
        after.entities.wf(),
        after.archetypes.wf(),
        after.storages.tables.wf(),
        after.archetypes.identities() == before.archetypes.identities(),
        after.storages.tables.keys() == before.storages.tables.keys(),
    ensures
        after.rows_wf(),
{
    let t = before.table_of(a);
    let r0 = before.archetypes@[a]@[i0].table_row as int;
    let last_entry = before.archetypes@[a]@.len() - 1;
    let last_row = before.storages.tables@[t]@.len() - 1;
    assert(before.location_consistent(entity.index as int));
    before.lemma_row_owner(a, i0);
    before.lemma_row_owner(a, last_entry);
    let swapped = before.archetypes@[a]@[last_entry].entity;
    assert forall|b: int| 0 <= b < after.archetypes@.len() implies 0 <= #[trigger] after.table_of(b)
        < after.storages.tables@.len() && after.storages.tables.keys()[after.table_of(b)]
        == after.archetypes.identities()[b].0 by {
        assert(after.table_of(b) == before.table_of(b));
        assert(0 <= before.table_of(b) < before.storages.tables@.len());
    }
    assert forall|b: int, i: int|
        0 <= b < after.archetypes@.len() && 0 <= i
            < after.archetypes@[b]@.len() implies #[trigger] after.entry_consistent(b, i) by {
        lemma_taken_out_entry(before, after, entity, a, i0, b, i);
    }
    assert forall|u: int, r: int|
        0 <= u < after.storages.tables@.len() && 0 <= r
            < after.storages.tables@[u]@.len() implies #[trigger] after.row_consistent(u, r) by {
        lemma_taken_out_row(before, after, entity, a, i0, u, r);
    }
    assert forall|slot: int| 0 <= slot < after.entities@.len() implies #[trigger] after.location_consistent(
        slot,
    ) by {
        lemma_taken_out_slot(before, after, entity, a, i0, slot);
    }
}

/// Where entry `i` of archetype `b` of the world after the removal comes
/// from, and what is recorded for its entity.
proof fn lemma_taken_out_source(
    before: &World,
    after: &World,
    entity: Entity,
    a: int,
    i0: int,
    b: int,
    i: int,
)
    requires
        before.rows_wf(),
        before.entities.location_of(entity) matches Some(location)
            && location.archetype_id.spec_index() == a && location.index == i0,
        taken_out(before, after, entity, a, i0),
        0 <= b < after.archetypes@.len(),
        0 <= i < after.archetypes@[b]@.len(),
    ensures
        ({
            let source = if b == a && i == i0 {
                before.archetypes@[a]@.len() - 1
            } else {
                i
            };
            let entry = before.archetypes@[b]@[source];
            let t = before.table_of(a);
            let r0 = before.archetypes@[a]@[i0].table_row as int;
            let last_row = before.storages.tables@[t]@.len() - 1;
            &&& 0 <= source < before.archetypes@[b]@.len()
            &&& !(b == a && source == i0)
            &&& before.entry_consistent(b, source)
            &&& entry.entity != entity
            &&& after.archetypes@[b]@[i].entity == entry.entity
            &&& after.archetypes@[b]@[i].table_row == if before.table_of(b) == t && entry.table_row
                == last_row {
                r0 as usize
            } else {
                entry.table_row
            }
            &&& !(before.table_of(b) == t && entry.table_row == r0)
            &&& after.entities.location_of(entry.entity) matches Some(location)
                && location.archetype_id.spec_index() == b && location.index == i
        }),
{
    let last_entry = before.archetypes@[a]@.len() - 1;
    let source = if b == a && i == i0 {
        last_entry
    } else {
        i
    };
    assert(before.location_consistent(entity.index as int));
    before.lemma_row_owner(a, i0);
    before.lemma_row_owner(a, last_entry);
    before.lemma_row_owner(b, source);
    let entry = before.archetypes@[b]@[source];
    let swapped = before.archetypes@[a]@[last_entry].entity;
    assert(after.archetypes@[b]@[i] == with_row_moved(
        entry,
        before.table_of(b),
        before.table_of(a),
        before.storages.tables@[before.table_of(a)]@.len() - 1,
        before.archetypes@[a]@[i0].table_row as int,
    ));
    if entry.entity.index == entity.index {
        assert(entry.entity == entity);
    }
    if i0 != last_entry && entry.entity.index == swapped.index {
        assert(entry.entity == swapped);
        assert(b == a && source == last_entry);
    } else {
        assert(after.entities@[entry.entity.index as int] == before.entities@[entry.entity.index as int]);
    }
}

proof fn lemma_taken_out_entry(before: &World, after: &World, entity: Entity, a: int, i0: int, b: int, i: int)
    requires
        before.rows_wf(),
        before.entities.location_of(entity) matches Some(location)
            && location.archetype_id.spec_index() == a && location.index == i0,
        taken_out(before, after, entity, a, i0),
        0 <= b < after.archetypes@.len(),
        0 <= i < after.archetypes@[b]@.len(),
    ensures
        after.entry_consistent(b, i),
{
    lemma_taken_out_source(before, after, entity, a, i0, b, i);
    assert(before.location_consistent(entity.index as int));
    let t = before.table_of(a);
    let r0 = before.archetypes@[a]@[i0].table_row as int;
    let last_row = before.storages.tables@[t]@.len() - 1;
    let source = if b == a && i == i0 {
        before.archetypes@[a]@.len() - 1
    } else {
        i
    };
    let entry = before.archetypes@[b]@[source];
    before.lemma_row_owner(a, i0);
    assert(after.table_of(b) == before.table_of(b));
    assert(0 <= before.table_of(b) < before.storages.tables@.len());
    if before.table_of(b) == t {
        if entry.table_row == last_row {
            assert(after.storages.tables@[t]@[r0] == before.storages.tables@[t]@[last_row]);
        } else {
            assert(after.storages.tables@[t]@[entry.table_row as int]
                == before.storages.tables@[t]@[entry.table_row as int]);
        }
    } else {
        assert(after.storages.tables@[before.table_of(b)]@
            == before.storages.tables@[before.table_of(b)]@);
    }
}

proof fn lemma_taken_out_row(before: &World, after: &World, entity: Entity, a: int, i0: int, u: int, r: int)
    requires
        before.rows_wf(),
        before.entities.location_of(entity) matches Some(location)
            && location.archetype_id.spec_index() == a && location.index == i0,
        taken_out(before, after, entity, a, i0),
        0 <= u < after.storages.tables@.len(),
        0 <= r < after.storages.tables@[u]@.len(),
    ensures
        after.row_consistent(u, r),
{
    let t = before.table_of(a);
    let r0 = before.archetypes@[a]@[i0].table_row as int;
    let last_entry = before.archetypes@[a]@.len() - 1;
    let last_row = before.storages.tables@[t]@.len() - 1;
    assert(before.location_consistent(entity.index as int));
    before.lemma_row_owner(a, i0);
    assert(0 <= t < before.storages.tables@.len());
    let source = if u == t && r == r0 {
        last_row
    } else {
        r
    };
    if u != t {
        assert(after.storages.tables@[u]@ == before.storages.tables@[u]@);
    }
    let x = before.storages.tables@[u]@[source];
    assert(after.storages.tables@[u]@[r] == x);
    let place = before.lemma_entry_of_row(u, source);
    // the entry of `x` is not the removed one, because its row is not the removed row
    assert(!(place.0 == a && place.1 == i0));
    let i = if place.0 == a && place.1 == last_entry {
        i0
    } else {
        place.1
    };
    assert(0 <= i < after.archetypes@[place.0]@.len());
    lemma_taken_out_source(before, after, entity, a, i0, place.0, i);
    assert(after.table_of(place.0) == before.table_of(place.0));
}

proof fn lemma_taken_out_slot(before: &World, after: &World, entity: Entity, a: int, i0: int, slot: int)
    requires
        before.rows_wf(),
        before.entities.location_of(entity) matches Some(location)
            && location.archetype_id.spec_index() == a && location.index == i0,
        taken_out(before, after, entity, a, i0),
        0 <= slot < after.entities@.len(),
    ensures
        after.location_consistent(slot),
{
    let last_entry = before.archetypes@[a]@.len() - 1;
    let swapped = before.archetypes@[a]@[last_entry].entity;
    assert(before.location_consistent(entity.index as int));
    before.lemma_row_owner(a, i0);
    before.lemma_row_owner(a, last_entry);
    let meta = after.entities@[slot];
    if meta.live && meta.location is Some {
        if i0 != last_entry && slot == swapped.index {
            lemma_taken_out_source(before, after, entity, a, i0, a, i0);
        } else {
            assert(meta == before.entities@[slot]);
            assert(before.location_consistent(slot));
            let location = meta.location->0;
            let b = location.archetype_id.spec_index() as int;
            let x = Entity { index: slot as u32, generation: meta.generation };
            assert(before.entities.location_of(x) == Some(location));
            before.lemma_row_owner(b, location.index as int);
            // `x` is neither the removed entity nor the one that took its place
            assert(!(b == a && location.index == i0));
            assert(!(b == a && location.index == last_entry && i0 != last_entry));
            lemma_taken_out_source(before, after, entity, a, i0, b, location.index as int);
        }
    }
}

/// How the tables of a world look after row `row` of table `t` has been
/// taken out: in every column of `t` the last cell closes the gap, and all
/// other tables are as they were.
pub open spec fn row_taken_out(before: &World, after: &World, t: int, row: int) -> bool {
    &&& forall|u: int|
        0 <= u < before.storages.tables@.len() && u != t ==> #[trigger] after.storages.tables@[u]
            == before.storages.tables@[u]
    &&& after.storages.tables@[t].column_ids() == before.storages.tables@[t].column_ids()
    &&& forall|i: int|
        0 <= i < before.storages.tables@[t].column_cells().len()
            ==> #[trigger] after.storages.tables@[t].column_cells()[i]
            == before.storages.tables@[t].column_cells()[i].update(
            row,
            before.storages.tables@[t].column_cells()[i].last(),
        ).drop_last()
}

/// Taking an entity out leaves the values of every other entity with that
/// entity.
pub proof fn lemma_taken_out_frame(
    before: &World,
    after: &World,
    entity: Entity,
    a: int,
    i0: int,
    other: Entity,
    id: ComponentId,
)
    requires
        before.wf(),
        after.wf(),
        before.entities.location_of(entity) matches Some(location)
            && location.archetype_id.spec_index() == a && location.index == i0,
        taken_out(before, after, entity, a, i0),
        row_taken_out(
            before,
            after,
            before.table_of(a),
            before.archetypes@[a]@[i0].table_row as int,
        ),
        after.archetypes.identities() == before.archetypes.identities(),
        after.storages.tables.keys() == before.storages.tables.keys(),
        after.storages.sparse_sets == before.storages.sparse_sets,
        other != entity,
    ensures
        after.cell_of(other, id) == before.cell_of(other, id),
{
    let t = before.table_of(a);
    let r0 = before.archetypes@[a]@[i0].table_row as int;
    let last_entry = before.archetypes@[a]@.len() - 1;
    let last_row = before.storages.tables@[t]@.len() - 1;
    let swapped = before.archetypes@[a]@[last_entry].entity;
    assert(before.location_consistent(entity.index as int));
    before.lemma_row_owner(a, i0);
    before.lemma_row_owner(a, last_entry);
    if other.index < before.entities@.len() && other.index == entity.index {
        // another handle of the slot of `entity` is not live
        assert(before.entities.location_of(other) is None);
        assert(after.entities.location_of(other) is None);
    } else if before.entities.location_of(other) is Some {
        let location = before.entities.location_of(other)->0;
        let c = location.archetype_id.spec_index() as int;
        let i = location.index as int;
        assert(before.location_consistent(other.index as int));
        before.lemma_row_owner(c, i);
        let key = before.archetypes.identities()[c];
        let u = before.table_of(c);
        let r = before.archetypes@[c]@[i].table_row as int;
        // where the other entity is now
        let i2 = if c == a && i == last_entry {
            i0
        } else {
            i
        };
        assert(!(c == a && i == i0));
        lemma_taken_out_source(before, after, entity, a, i0, c, i2);
        assert(after.entities.location_of(other) matches Some(now) && now.archetype_id.spec_index()
            == c && now.index == i2);
        assert(after.table_of(c) == u);
        if key.0.contains(id) && !key.1.contains(id) {
            assert(ComponentId(id.0) == id);
            assert(before.storages.tables.keys()[u] == key.0);
            assert(before.storages.tables@[u].wf());
            assert(after.storages.tables@[u].wf());
            before.storages.tables@[u].lemma_wf();
            after.storages.tables@[u].lemma_wf();
            assert(before.storages.tables@[u].has(id.0));
            assert(after.storages.tables@[u].has(id.0));
            assert(after.storages.tables@[u].column_ids()
                == before.storages.tables@[u].column_ids());
            let ids = before.storages.tables@[u].column_ids();
            let j = choose|j: int| 0 <= j < ids.len() && ids[j] == id.0;
            assert(before.storages.tables@[u].cells_of(id.0)
                == before.storages.tables@[u].column_cells()[j]);
            assert(after.storages.tables@[u].cells_of(id.0)
                == after.storages.tables@[u].column_cells()[j]);
            if u == t {
                assert(after.storages.tables@[t].column_cells()[j]
                    == before.storages.tables@[t].column_cells()[j].update(
                    r0,
                    before.storages.tables@[t].column_cells()[j].last(),
                ).drop_last());
            }
        }
    } else {
        // the other entity is not placed, before and after
        if other.index < before.entities@.len() {
            if i0 != last_entry && other.index == swapped.index {
                assert(before.entities@[swapped.index as int].live);
                if before.entities@[other.index as int].generation == other.generation {
                    assert(other == swapped);
                }
            } else {
                assert(after.entities@[other.index as int] == before.entities@[other.index as int]);
            }
        }
    }
}

impl World {
    /// Despawns `entity`: its archetype entry and its table row are removed
    /// by moving the last entry and the last row into their places, the
    /// records of the entities that moved are brought up to date, the
    /// entity's slot is freed, and the values it has in sparse sets are
    /// dropped. The values of all other entities stay with them. A handle
    /// that is not live is refused and nothing changes.
    pub fn despawn(&mut self, entity: Entity) -> (despawned: bool)
        requires
            old(self).wf(),
        ensures
            final(self).wf(),
            despawned == old(self).entities.is_live(entity),
            !final(self).entities.is_live(entity),
            !despawned ==> *final(self) == *old(self),
            final(self).archetypes.identities() == old(self).archetypes.identities(),
            final(self).storages.tables.keys() == old(self).storages.tables.keys(),
            final(self).storages.resources == old(self).storages.resources,
            final(self).catalog_kept(old(self)),
            final(self).storages.sparse_sets@.dom() == old(self).storages.sparse_sets@.dom(),
            old(self).entities.location_of(entity) matches Some(location) ==> taken_out(
                old(self),
                final(self),
                entity,
                location.archetype_id.spec_index() as int,
                location.index as int,
            ),
            old(self).entities.location_of(entity) is None ==> final(self).archetypes
                == old(self).archetypes && final(self).storages == old(self).storages,
            old(self).entities.location_of(entity) matches Some(location) ==> {
                let a = location.archetype_id.spec_index() as int;
                &&& row_taken_out(
                    old(self),
                    final(self),
                    old(self).table_of(a),
                    old(self).archetypes@[a]@[location.index as int].table_row as int,
                )
                &&& forall|id: ComponentId|
                    old(self).archetypes.identities()[a].1.contains(id)
                        && final(self).storages.sparse_sets@.contains_key(id.0) ==> (
                    #[trigger] final(self).storages.sparse_sets@[id.0]).cell_of(entity) is None
            },
            forall|other: Entity, id: ComponentId|
                other != entity ==> #[trigger] final(self).cell_of(other, id) == old(self).cell_of(
                    other,
                    id,
                ),
            forall|other: Entity|
                other != entity && old(self).entities.is_live(other)
                    ==> #[trigger] final(self).entities.is_live(other),
    {
        if !self.entities.contains(entity) {
            return false;
        }
        let location = match self.entities.get(entity) {
            Some(location) => location,
            None => {
                // live, but never placed: only the slot is given back
                self.entities.free(entity);
                proof {
                    let before = *old(self);
                    let after = *self;
                    assert forall|b: int, i: int|
                        0 <= b < after.archetypes@.len() && 0 <= i
                            < after.archetypes@[b]@.len() implies #[trigger] after.entry_consistent(
                        b,
                        i,
                    ) by {
                        assert(before.entry_consistent(b, i));
                    }
                    assert forall|u: int, r: int|
                        0 <= u < after.storages.tables@.len() && 0 <= r
                            < after.storages.tables@[u]@.len() implies #[trigger] after.row_consistent(
                        u,
                        r,
                    ) by {
                        assert(before.row_consistent(u, r));
                    }
                    assert forall|slot: int|
                        0 <= slot < after.entities@.len() implies #[trigger] after.location_consistent(
                        slot,
                    ) by {
                        assert(before.location_consistent(slot));
                    }
                    assert forall|b: int| 0 <= b < after.archetypes@.len() implies 0
                        <= #[trigger] after.table_of(b) < after.storages.tables@.len()
                        && after.storages.tables.keys()[after.table_of(b)]
                        == after.archetypes.identities()[b].0 by {
                        assert(before.table_of(b) == after.table_of(b));
                    }
                    after.lemma_catalog_kept(&before);
                }
                return true;
            },
        };
        let ghost before = *old(self);
        let ghost a = location.archetype_id.spec_index() as int;
        let ghost i0 = location.index as int;
        assert(before.location_consistent(entity.index as int));
        let ghost t = before.table_of(a);
        let ghost r0 = before.archetypes@[a]@[i0].table_row as int;
        let ghost last_entry = before.archetypes@[a]@.len() - 1;
        let ghost last_row = before.storages.tables@[t]@.len() - 1;
        proof {
            assert(before.location_consistent(entity.index as int));
            before.lemma_row_owner(a, i0);
            before.lemma_row_owner(a, last_entry);
            assert(before.storages.tables@[t].wf());
        }
        let archetype_id = location.archetype_id;
        let removed = self.archetypes.index_mut(archetype_id).swap_remove(location.index);
        match removed.swapped_entity {
            Some(swapped) => {
                self.entities.set(
                    swapped.index(),
                    EntityLocation { archetype_id, index: location.index },
                );
            },
            None => {},
        }
        let ghost middle = *self;
        proof {
            assert(middle.archetypes@[a]@.len() == last_entry);
            assert forall|b: int| 0 <= b < before.archetypes@.len() && b != a implies middle.archetypes@[b]
                == before.archetypes@[b] by {}
            assert forall|i: int| 0 <= i < last_entry implies middle.archetypes@[a]@[i]
                == before.archetypes@[a]@[if i == i0 {
                last_entry
            } else {
                i
            }] by {}
        }
        let table_id = self.archetypes.index(archetype_id).table_id();
        let moved = self.storages.tables.index_mut(table_id).swap_remove(removed.table_row);
        let ghost place = (0int, 0int);
        match moved.swapped_entity {
            Some(moved_entity) => {
                proof {
                    place = before.lemma_entry_of_row(t, last_row);
                    assert(moved_entity == before.storages.tables@[t]@[last_row]);
                    assert(!(place.0 == a && place.1 == i0));
                    if i0 != last_entry && place.0 == a && place.1 == last_entry {
                        place = (a, i0);
                    } else {
                        assert(middle.entities@[moved_entity.index as int]
                            == before.entities@[moved_entity.index as int]);
                    }
                    assert(0 <= place.1 < middle.archetypes@[place.0]@.len());
                }
                let moved_location = match self.entities.get(moved_entity) {
                    Some(moved_location) => moved_location,
                    None => vstd::pervasive::unreached(),
                };
                assert(moved_location.archetype_id.spec_index() == place.0 && moved_location.index
                    == place.1);
                self.archetypes.index_mut(moved_location.archetype_id).set_entity_table_row(
                    moved_location.index,
                    removed.table_row,
                );
            },
            None => {},
        }
        let ghost fixed = *self;
        proof {
            assert forall|b: int, i: int|
                0 <= b < before.archetypes@.len() && 0 <= i
                    < middle.archetypes@[b]@.len() implies fixed.archetypes@[b]@.len()
                == middle.archetypes@[b]@.len() && #[trigger] fixed.archetypes@[b]@[i] == if r0
                != last_row && b == place.0 && i == place.1 {
                ArchetypeEntity { entity: middle.archetypes@[b]@[i].entity, table_row: r0 as usize }
            } else {
                middle.archetypes@[b]@[i]
            } by {}
        }
        self.entities.free(entity);
        proof {
            let after = *self;
            assert(after.archetypes.wf()) by {
                assert forall|b: int| 0 <= b < after.archetypes@.len() implies (
                #[trigger] after.archetypes@[b]).wf() && after.archetypes@[b].spec_id().spec_index()
                    == b && after.archetypes@[b].slots() == before.archetypes@[b].slots()
                    && after.archetypes@[b].component_order()
                    == before.archetypes@[b].component_order() by {
                    assert(before.archetypes@[b].wf());
                    assert(middle.archetypes@[b].wf());
                }
            }
            assert(after.storages.tables.wf()) by {
                assert forall|u: int| 0 <= u < after.storages.tables@.len() implies (
                #[trigger] after.storages.tables@[u]).wf() && after.storages.tables@[u].column_ids()
                    == distinct_indices(Seq::empty(), after.storages.tables.keys()[u]) by {
                    assert(before.storages.tables@[u].wf());
                }
                assert forall|u: int, k: usize| 0 <= u < after.storages.tables@.len() implies ((
                #[trigger] after.storages.tables@[u]).has(k)
                    <==> #[trigger] after.storages.tables.keys()[u].contains(ComponentId(k))) by {
                    assert(before.storages.tables@[u].has(k)
                        <==> before.storages.tables.keys()[u].contains(ComponentId(k)));
                }
            }
            assert forall|b: int| 0 <= b < before.archetypes@.len() implies #[trigger] after.table_of(
                b,
            ) == before.table_of(b) by {
                assert(middle.table_of(b) == before.table_of(b));
                assert(fixed.table_of(b) == middle.table_of(b));
            }
            assert forall|b: int| 0 <= b < before.archetypes@.len() implies (
            #[trigger] after.archetypes@[b])@.len() == if b == a {
                last_entry
            } else {
                before.archetypes@[b]@.len() as int
            } by {
                if middle.archetypes@[b]@.len() > 0 {
                    assert(fixed.archetypes@[b]@[0] == fixed.archetypes@[b]@[0]);
                } else {
                    assert(fixed.archetypes@[b]@.len() == middle.archetypes@[b]@.len());
                }
            }
            assert forall|b: int, i: int|
                0 <= b < before.archetypes@.len() && 0 <= i
                    < after.archetypes@[b]@.len() implies #[trigger] after.archetypes@[b]@[i]
                == with_row_moved(
                if b == a && i == i0 {
                    before.archetypes@[b]@[last_entry]
                } else {
                    before.archetypes@[b]@[i]
                },
                before.table_of(b),
                t,
                last_row,
                r0,
            ) by {
                let source = if b == a && i == i0 {
                    last_entry
                } else {
                    i
                };
                assert(middle.archetypes@[b]@[i] == before.archetypes@[b]@[source]);
                assert(fixed.archetypes@[b]@[i] == if r0 != last_row && b == place.0 && i
                    == place.1 {
                    ArchetypeEntity {
                        entity: middle.archetypes@[b]@[i].entity,
                        table_row: r0 as usize,
                    }
                } else {
                    middle.archetypes@[b]@[i]
                });
                before.lemma_row_owner(b, source);
                before.lemma_row_owner(a, i0);
                if before.table_of(b) == t && before.archetypes@[b]@[source].table_row
                    == last_row {
                    // this is the entry of the entity of the last row
                    let owner = before.lemma_entry_of_row(t, last_row);
                    assert(owner.0 == b && owner.1 == source);
                    assert(r0 != last_row);
                } else if r0 != last_row {
                    let owner = before.lemma_entry_of_row(t, last_row);
                    assert(!(owner.0 == b && owner.1 == source));
                }
            }
            assert(taken_out(&before, &after, entity, a, i0));
            lemma_taken_out(&before, &after, entity, a, i0);
            assert(after.catalog_kept(&before)) by {
                assert forall|b: int| 0 <= b < before.archetypes@.len() implies (
                #[trigger] after.archetypes@[b]).spec_edges() == before.archetypes@[b].spec_edges() by {
                    assert(middle.archetypes@[b].spec_edges() == before.archetypes@[b].spec_edges());
                    assert(fixed.archetypes@[b].spec_edges() == middle.archetypes@[b].spec_edges());
                }
            }
            after.lemma_catalog_kept(&before);
            assert(row_taken_out(&before, &after, t, r0));
        }
        let ghost after = *self;
        let ghost key = before.archetypes.identities()[a];
        let n: usize = self.archetypes.identity(archetype_id).sparse_set_components().len();
        let mut i: usize = 0;
        while i < n
            invariant
                i <= n,
                after.wf(),
                a == archetype_id.spec_index(),
                0 <= a < after.archetypes.identities().len(),
                key == after.archetypes.identities()[a],
                n == key.1.len(),
                self.components == after.components,
                self.bundles == after.bundles,
                self.entities == after.entities,
                self.archetypes == after.archetypes,
                self.storages.tables == after.storages.tables,
                self.storages.resources == after.storages.resources,
                self.storages.sparse_sets.wf(),
                self.storages.sparse_sets@.dom() == after.storages.sparse_sets@.dom(),
                forall|k: usize, other: Entity|
                    other.index != entity.index && after.storages.sparse_sets@.contains_key(k)
                        ==> #[trigger] self.storages.sparse_sets@[k].cell_of(other)
                        == after.storages.sparse_sets@[k].cell_of(other),
                forall|j: int|
                    0 <= j < i && self.storages.sparse_sets@.contains_key(key.1[j].0) ==> (
                    #[trigger] self.storages.sparse_sets@[key.1[j].0]).cell_of(entity) is None,
            decreases n - i,
        {
            let id = self.archetypes.identity(archetype_id).sparse_set_components()[i];
            let ghost earlier = self.storages.sparse_sets@;
            let _ = self.storages.sparse_sets.remove(id, entity);
            proof {
                assert forall|k: usize, other: Entity|
                    other.index != entity.index && after.storages.sparse_sets@.contains_key(
                        k,
                    ) implies #[trigger] self.storages.sparse_sets@[k].cell_of(other)
                    == after.storages.sparse_sets@[k].cell_of(other) by {
                    assert(earlier.contains_key(k));
                    assert(earlier[k].cell_of(other) == after.storages.sparse_sets@[k].cell_of(
                        other,
                    ));
                }
                assert forall|j: int|
                    0 <= j < i + 1 && self.storages.sparse_sets@.contains_key(
                        key.1[j].0,
                    ) implies (#[trigger] self.storages.sparse_sets@[key.1[j].0]).cell_of(
                    entity,
                ) is None by {
                    assert(earlier.contains_key(key.1[j].0));
                    if j < i {
                        assert(earlier[key.1[j].0].cell_of(entity) is None);
                    }
                }
            }
            i += 1;
        }
        proof {
            let done = *self;
            done.lemma_rows_kept(&after);
            assert(done.catalog_kept(&after));
            done.lemma_catalog_kept(&after);
            assert(taken_out(&before, &done, entity, a, i0));
            assert(row_taken_out(&before, &done, t, r0));
            assert forall|id: ComponentId|
                key.1.contains(id) && done.storages.sparse_sets@.contains_key(id.0) implies (
            #[trigger] done.storages.sparse_sets@[id.0]).cell_of(entity) is None by {
                let j = choose|j: int| 0 <= j < key.1.len() && key.1[j] == id;
                assert(done.storages.sparse_sets@.contains_key(key.1[j].0));
            }
            assert forall|other: Entity, id: ComponentId| other != entity implies #[trigger] done.cell_of(
                other,
                id,
            ) == before.cell_of(other, id) by {
                lemma_taken_out_frame(&before, &after, entity, a, i0, other, id);
                if other.index == entity.index {
                    assert(after.entities.location_of(other) is None);
                } else if after.entities.location_of(other) is Some
                    && after.storages.sparse_sets@.contains_key(id.0) {
                    assert(done.storages.sparse_sets@[id.0].cell_of(other)
                        == after.storages.sparse_sets@[id.0].cell_of(other));
                }
            }
        }
        true
    }
}

} // verus!
