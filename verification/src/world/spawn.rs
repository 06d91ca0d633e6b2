//! Spawning: new entities, and the archetypes and tables they need.

use crate::archetype::{
    lemma_sorted_set, lemma_sorted_set_of_sorted, sort_ids, sorted_key, sorted_set, strictly_sorted,
    AddBundle, ArchetypeEntity, ArchetypeId,
};
use crate::component::{ComponentId, ComponentTicks, StorageType, Tick};
use crate::entity::Entity;
use crate::registry::{id_for, lemma_register_extends, register};
use crate::storage::column::ticks_after_write;
use crate::storage::table::distinct_indices;
use crate::world::{filed_as_registered, lemma_sorted_set_registered, World};
use vstd::prelude::*;

verus! {

/// A copy of a list of component ids.
pub fn copy_ids(ids: &Vec<ComponentId>) -> (copy: Vec<ComponentId>)
    ensures
        copy@ == ids@,
{
    let mut copy: Vec<ComponentId> = Vec::with_capacity(ids.len());
    let mut i: usize = 0;
    while i < ids.len()
        invariant
            i <= ids@.len(),
            copy@ == ids@.take(i as int),
        decreases ids@.len() - i,
    {
        copy.push(ids[i]);
        assert(copy@ =~= ids@.take(i + 1));
        i += 1;
    }
    assert(ids@.take(ids@.len() as int) =~= ids@);
    copy
}

impl World {
    /// Spawns an entity in the archetype `archetype_id`: the entity gets a
    /// new last row in the archetype's table, with `values[i]` in column
    /// number `i`, added and changed at `change_tick`, and a new last entry
    /// in the archetype, and its location is recorded. Nothing else
    /// changes.
    pub fn spawn_in(
        &mut self,
        archetype_id: ArchetypeId,
        values: Vec<Vec<u8>>,
        change_tick: u32,
    ) -> (entity: Entity)
        requires
            old(self).wf(),
            archetype_id.spec_index() < old(self).archetypes@.len(),
            values@.len() == old(self).storages.tables@[old(self).table_of(
                archetype_id.spec_index() as int,
            )].column_ids().len(),
            old(self).entities.free_slots().len() == 0 ==> old(self).entities@.len() < u32::MAX,
        ensures
            final(self).wf(),
            !old(self).entities.is_live(entity),
            final(self).entities.location_of(entity) matches Some(location)
                && location.archetype_id.spec_index() == archetype_id.spec_index() && location.index
                == old(self).archetypes@[archetype_id.spec_index() as int]@.len(),
            forall|other: Entity|
                other != entity ==> #[trigger] final(self).entities.location_of(other)
                    == old(self).entities.location_of(other),
            final(self).archetypes.identities() == old(self).archetypes.identities(),
            final(self).archetypes@.len() == old(self).archetypes@.len(),
            forall|a: int|
                0 <= a < old(self).archetypes@.len() && a != archetype_id.spec_index()
                    ==> #[trigger] final(self).archetypes@[a] == old(self).archetypes@[a],
            final(self).archetypes@[archetype_id.spec_index() as int]@
                == old(self).archetypes@[archetype_id.spec_index() as int]@.push(
                ArchetypeEntity {
                    entity,
                    table_row: old(self).storages.tables@[old(self).table_of(
                        archetype_id.spec_index() as int,
                    )]@.len() as usize,
                },
            ),
            final(self).archetypes@[archetype_id.spec_index() as int]@.last().table_row
                == old(self).storages.tables@[old(self).table_of(archetype_id.spec_index() as int)]@.len(),
            final(self).storages.tables.keys() == old(self).storages.tables.keys(),
            final(self).storages.tables@.len() == old(self).storages.tables@.len(),
            forall|t: int|
                0 <= t < old(self).storages.tables@.len() && t != old(self).table_of(
                    archetype_id.spec_index() as int,
                ) ==> #[trigger] final(self).storages.tables@[t] == old(self).storages.tables@[t],
            final(self).storages.tables@[old(self).table_of(archetype_id.spec_index() as int)]@
                == old(self).storages.tables@[old(self).table_of(
                archetype_id.spec_index() as int,
            )]@.push(entity),
            forall|i: int|
                0 <= i < values@.len()
                    ==> #[trigger] final(self).storages.tables@[old(self).table_of(
                        archetype_id.spec_index() as int)].column_cells()[i]
                            == old(self).storages.tables@[old(self).table_of(
                    archetype_id.spec_index() as int,
                )].column_cells()[i].push(
                    (
                        values@[i]@,
                        ComponentTicks {
                            added: Tick { tick: change_tick },
                            changed: Tick { tick: change_tick },
                        },
                    ),
                ),
            final(self).storages.resources == old(self).storages.resources,
            final(self).catalog_kept(old(self)),
            final(self).storages.sparse_sets == old(self).storages.sparse_sets,
            forall|other: Entity, id: ComponentId|
                other != entity ==> #[trigger] final(self).cell_of(other, id) == old(self).cell_of(
                    other,
                    id,
                ),
    {
        let ghost a = archetype_id.spec_index() as int;
        let ghost t = self.table_of(a);
        let ghost values_view = values@;
        proof {
            assert(0 <= self.table_of(a) < self.storages.tables@.len());
            old(self).storages.tables@[t].lemma_wf();
        }
        let entity = self.entities.allocate();
        let ghost with_entity = *self;
        proof {
            // no archetype entry and no table row names the new entity: they all name
            // entities that were live before
            assert forall|b: int, i: int|
                0 <= b < self.archetypes@.len() && 0 <= i < self.archetypes@[b]@.len() implies (
            #[trigger] self.archetypes@[b]@[i]).entity.index != entity.index by {
                assert(old(self).entry_consistent(b, i));
            }
            assert forall|u: int, r: int|
                0 <= u < self.storages.tables@.len() && 0 <= r
                    < self.storages.tables@[u]@.len() implies (
            #[trigger] self.storages.tables@[u]@[r]).index != entity.index by {
                assert(old(self).row_consistent(u, r));
            }
        }
        let table_id = self.archetypes.index(archetype_id).table_id();
        let row = self.storages.tables.index_mut(table_id).allocate(entity, values, change_tick);
        let location = self.archetypes.index_mut(archetype_id).allocate(entity, row);
        self.entities.set(entity.index(), location);
        proof {
            let before = *old(self);
            let after = *self;
            assert(after.archetypes.wf()) by {
                assert forall|b: int| 0 <= b < after.archetypes@.len() implies (
                #[trigger] after.archetypes@[b]).wf() && after.archetypes@[b].spec_id().spec_index()
                    == b && after.archetypes@[b].slots() == before.archetypes@[b].slots()
                    && after.archetypes@[b].component_order()
                    == before.archetypes@[b].component_order() by {
                    assert(before.archetypes@[b].wf());
                }
            }
            assert(after.storages.tables.wf()) by {
                assert forall|u: int| 0 <= u < after.storages.tables@.len() implies (
                #[trigger] after.storages.tables@[u]).wf() && after.storages.tables@[u].column_ids()
                    == distinct_indices(Seq::empty(), after.storages.tables.keys()[u]) by {
                    assert(before.storages.tables@[u].wf());
                }
                assert forall|u: int, k: usize| 0 <= u < after.storages.tables@.len() implies ((
                #[trigger] after.storages.tables@[u]).has(k)
                    <==> #[trigger] after.storages.tables.keys()[u].contains(ComponentId(k))) by {
                    assert(before.storages.tables@[u].has(k)
                        <==> before.storages.tables.keys()[u].contains(ComponentId(k)));
                }
            }
            assert forall|b: int| 0 <= b < after.archetypes@.len() implies 0
                <= #[trigger] after.table_of(b) < after.storages.tables@.len()
                && after.storages.tables.keys()[after.table_of(b)]
                == after.archetypes.identities()[b].0 by {
                assert(before.table_of(b) == after.table_of(b));
            }
            assert forall|b: int, i: int|
                0 <= b < after.archetypes@.len() && 0 <= i
                    < after.archetypes@[b]@.len() implies #[trigger] after.entry_consistent(
                b,
                i,
            ) by {
                assert(before.table_of(b) == after.table_of(b));
                if b == a && i == before.archetypes@[a]@.len() {
                } else {
                    assert(before.entry_consistent(b, i));
                    assert(after.archetypes@[b]@[i] == before.archetypes@[b]@[i]);
                    assert(before.archetypes@[b]@[i].entity.index != entity.index);
                }
            }
            assert forall|u: int, r: int|
                0 <= u < after.storages.tables@.len() && 0 <= r
                    < after.storages.tables@[u]@.len() implies #[trigger] after.row_consistent(
                u,
                r,
            ) by {
                if u == t && r == before.storages.tables@[t]@.len() {
                    assert(after.table_of(a) == t);
                } else {
                    assert(before.row_consistent(u, r));
                    let x = before.storages.tables@[u]@[r];
                    assert(after.storages.tables@[u]@[r] == x);
                    assert(x.index != entity.index);
                    let location = before.entities.location_of(x)->0;
                    let b = location.archetype_id.spec_index() as int;
                    assert(before.table_of(b) == after.table_of(b));
                }
            }
            assert forall|slot: int| 0 <= slot
                < after.entities@.len() implies #[trigger] after.location_consistent(
                slot,
            ) by {
                if slot != entity.index {
                    assert(before.location_consistent(slot));
                    assert(after.entities@[slot] == before.entities@[slot]);
                }
            }
            assert(after.catalog_kept(&before)) by {
                assert forall|b: int| 0 <= b < before.archetypes@.len() implies (
                #[trigger] after.archetypes@[b]).spec_edges() == before.archetypes@[b].spec_edges() by {}
            }
            after.lemma_catalog_kept(&before);
            assert forall|other: Entity, id: ComponentId| other != entity implies #[trigger] after.cell_of(
                other,
                id,
            ) == before.cell_of(other, id) by {
                if before.entities.location_of(other) is Some {
                    let location = before.entities.location_of(other)->0;
                    let c = location.archetype_id.spec_index() as int;
                    let i = location.index as int;
                    assert(before.location_consistent(other.index as int));
                    assert(before.entry_consistent(c, i));
                    assert(0 <= before.table_of(c) < before.storages.tables@.len());
                    assert(after.table_of(c) == before.table_of(c));
                    assert(after.archetypes@[c]@[i] == before.archetypes@[c]@[i]);
                    let key = before.archetypes.identities()[c];
                    if before.table_of(c) == t && key.0.contains(id) {
                        assert(ComponentId(id.0) == id);
                        assert(before.storages.tables.keys()[t] == key.0);
                        before.storages.tables@[t].lemma_wf();
                        after.storages.tables@[t].lemma_wf();
                        let ids = before.storages.tables@[t].column_ids();
                        assert(before.storages.tables@[t].has(id.0));
                        let j = choose|j: int| 0 <= j < ids.len() && ids[j] == id.0;
                        assert(after.storages.tables@[t].column_cells()[j]
                            == before.storages.tables@[t].column_cells()[j].push(
                            (
                                values_view[j]@,
                                ComponentTicks {
                                    added: Tick { tick: change_tick },
                                    changed: Tick { tick: change_tick },
                                },
                            ),
                        ));
                    }
                } else if other.index < before.entities@.len() && other.index != entity.index {
                    assert(after.entities@[other.index as int] == before.entities@[other.index as int]);
                }
            }
        }
        entity
    }

    /// Gets the archetype for the given components, creating it, and its
    /// table, if there is none yet. The lists are sorted first, see
    /// [`sorted_set`]: the order in which components are named, and how
    /// often, makes no difference. Existing archetypes, tables and entities
    /// do not change; a new archetype and a new table are empty. The lists
    /// have to file each component as it is registered.
    ///
    /// Creating an archetype needs a free id and enough free
    /// archetype-component ids below the reserved value.
    pub fn archetype_for(
        &mut self,
        table_components: Vec<ComponentId>,
        sparse_set_components: Vec<ComponentId>,
    ) -> (id: ArchetypeId)
        requires
            old(self).wf(),
            filed_as_registered(
                (table_components@, sparse_set_components@),
                old(self).components@,
            ),
            !old(self).archetypes.identities().contains(
                sorted_key(table_components@, sparse_set_components@),
            ) ==> old(self).archetypes@.len() < u32::MAX && old(self).archetypes.component_count()
                + sorted_set(table_components@).len() + sorted_set(sparse_set_components@).len()
                <= u32::MAX,
        ensures
            final(self).wf(),
            id.spec_index() == id_for(
                old(self).archetypes.identities(),
                sorted_key(table_components@, sparse_set_components@),
            ),
            id.spec_index() < final(self).archetypes@.len(),
            final(self).archetypes.identities() == register(
                old(self).archetypes.identities(),
                sorted_key(table_components@, sparse_set_components@),
            ),
            final(self).storages.tables.keys() == register(
                old(self).storages.tables.keys(),
                sorted_set(table_components@),
            ),
            final(self).table_of(id.spec_index() as int) == id_for(
                old(self).storages.tables.keys(),
                sorted_set(table_components@),
            ),
            final(self).entities == old(self).entities,
            final(self).storages.resources == old(self).storages.resources,
            forall|a: int|
                0 <= a < old(self).archetypes@.len() ==> #[trigger] final(self).archetypes@[a]
                    == old(self).archetypes@[a],
            forall|t: int|
                0 <= t < old(self).storages.tables@.len()
                    ==> #[trigger] final(self).storages.tables@[t] == old(self).storages.tables@[t],
            final(self).archetypes@.len() > old(self).archetypes@.len()
                ==> final(self).archetypes@.last()@.len() == 0,
            final(self).storages.tables@.len() > old(self).storages.tables@.len()
                ==> final(self).storages.tables@.last()@.len() == 0,
            final(self).catalog_kept(old(self)),
            forall|other: Entity, id: ComponentId| #[trigger]
                final(self).cell_of(other, id) == old(self).cell_of(other, id),
            final(self).storages.sparse_sets == old(self).storages.sparse_sets,
    {
        proof {
            lemma_sorted_set(table_components@);
            lemma_sorted_set(sparse_set_components@);
            lemma_sorted_set_registered(
                table_components@,
                self.components@,
                StorageType::Table,
            );
            lemma_sorted_set_registered(
                sparse_set_components@,
                self.components@,
                StorageType::SparseSet,
            );
        }
        let table_components = sort_ids(&table_components);
        let sparse_set_components = sort_ids(&sparse_set_components);
        self.archetype_for_sorted(table_components, sparse_set_components)
    }

    /// [`World::archetype_for`] for lists that are sorted already.
    pub fn archetype_for_sorted(
        &mut self,
        table_components: Vec<ComponentId>,
        sparse_set_components: Vec<ComponentId>,
    ) -> (id: ArchetypeId)
        requires
            old(self).wf(),
            strictly_sorted(table_components@),
            strictly_sorted(sparse_set_components@),
            filed_as_registered(
                (table_components@, sparse_set_components@),
                old(self).components@,
            ),
            !old(self).archetypes.identities().contains(
                (table_components@, sparse_set_components@),
            ) ==> old(self).archetypes@.len() < u32::MAX && old(self).archetypes.component_count()
                + table_components@.len() + sparse_set_components@.len() <= u32::MAX,
        ensures
            final(self).wf(),
            id.spec_index() == id_for(
                old(self).archetypes.identities(),
                (table_components@, sparse_set_components@),
            ),
            id.spec_index() < final(self).archetypes@.len(),
            final(self).archetypes.identities() == register(
                old(self).archetypes.identities(),
                (table_components@, sparse_set_components@),
            ),
            final(self).storages.tables.keys() == register(
                old(self).storages.tables.keys(),
                table_components@,
            ),
            final(self).table_of(id.spec_index() as int) == id_for(
                old(self).storages.tables.keys(),
                table_components@,
            ),
            final(self).entities == old(self).entities,
            final(self).storages.resources == old(self).storages.resources,
            forall|a: int|
                0 <= a < old(self).archetypes@.len() ==> #[trigger] final(self).archetypes@[a]
                    == old(self).archetypes@[a],
            forall|t: int|
                0 <= t < old(self).storages.tables@.len()
                    ==> #[trigger] final(self).storages.tables@[t] == old(self).storages.tables@[t],
            final(self).archetypes@.len() > old(self).archetypes@.len()
                ==> final(self).archetypes@.last()@.len() == 0,
            final(self).storages.tables@.len() > old(self).storages.tables@.len()
                ==> final(self).storages.tables@.last()@.len() == 0,
            final(self).catalog_kept(old(self)),
            forall|other: Entity, id: ComponentId| #[trigger]
                final(self).cell_of(other, id) == old(self).cell_of(other, id),
            final(self).storages.sparse_sets == old(self).storages.sparse_sets,
    {
        let ghost before = *old(self);
        let ghost key = (table_components@, sparse_set_components@);
        proof {
            lemma_register_extends(before.archetypes.identities(), key);
            lemma_register_extends(before.storages.tables.keys(), table_components@);
            if before.archetypes.identities().contains(key) {
                let a = before.archetypes.identities().index_of(key);
                assert(before.archetypes.identities()[a] == key);
                assert(0 <= before.table_of(a) < before.storages.tables@.len());
                assert(before.storages.tables.keys()[before.table_of(a)] == table_components@);
                assert(before.storages.tables.keys().contains(table_components@));
                assert(before.storages.tables.keys().index_of(table_components@)
                    == before.table_of(a));
            }
        }
        proof {
            lemma_sorted_set_of_sorted(table_components@);
            lemma_sorted_set_of_sorted(sparse_set_components@);
        }
        let table_id = self.storages.tables.get_id_or_insert(copy_ids(&table_components));
        let id = self.archetypes.get_id_or_insert(
            table_id,
            table_components,
            sparse_set_components,
        );
        proof {
            let after = *self;
            assert forall|a: int| 0 <= a < after.archetypes@.len() implies 0
                <= #[trigger] after.table_of(a) < after.storages.tables@.len()
                && after.storages.tables.keys()[after.table_of(a)]
                == after.archetypes.identities()[a].0 by {
                if a < before.archetypes@.len() {
                    assert(after.archetypes@[a] == before.archetypes@[a]);
                    assert(0 <= before.table_of(a) < before.storages.tables@.len());
                    assert(after.storages.tables.keys()[before.table_of(a)]
                        == before.storages.tables.keys()[before.table_of(a)]);
                    assert(after.archetypes.identities()[a] == before.archetypes.identities()[a]);
                }
            }
            assert forall|a: int, i: int|
                0 <= a < after.archetypes@.len() && 0 <= i
                    < after.archetypes@[a]@.len() implies #[trigger] after.entry_consistent(
                a,
                i,
            ) by {
                assert(a < before.archetypes@.len());
                assert(before.entry_consistent(a, i));
                assert(0 <= before.table_of(a) < before.storages.tables@.len());
            }
            assert forall|t: int, r: int|
                0 <= t < after.storages.tables@.len() && 0 <= r
                    < after.storages.tables@[t]@.len() implies #[trigger] after.row_consistent(
                t,
                r,
            ) by {
                assert(t < before.storages.tables@.len());
                assert(before.row_consistent(t, r));
            }
            assert forall|slot: int| 0 <= slot
                < after.entities@.len() implies #[trigger] after.location_consistent(
                slot,
            ) by {
                assert(before.location_consistent(slot));
            }
            assert(after.catalog_kept(&before)) by {
                assert forall|a: int| 0 <= a < before.archetypes@.len() implies (
                #[trigger] after.archetypes@[a]).spec_edges() == before.archetypes@[a].spec_edges() by {}
                assert forall|a: int| before.archetypes@.len() <= a < after.archetypes@.len() implies (
                #[trigger] after.archetypes@[a]).spec_edges().add_edges() == Map::<
                    usize,
                    AddBundle,
                >::empty() && after.archetypes@[a].spec_edges().remove_intersection_edges()
                    == Map::<usize, Option<ArchetypeId>>::empty() by {
                    assert(after.archetypes@[a] == after.archetypes@.last());
                }
            }
            after.lemma_catalog_kept(&before);
            assert forall|other: Entity, id: ComponentId| #[trigger]
                after.cell_of(other, id) == before.cell_of(other, id) by {
                if before.entities.location_of(other) is Some {
                    let location = before.entities.location_of(other)->0;
                    let c = location.archetype_id.spec_index() as int;
                    assert(before.location_consistent(other.index as int));
                    assert(0 <= before.table_of(c) < before.storages.tables@.len());
                    assert(after.archetypes@[c] == before.archetypes@[c]);
                    assert(after.archetypes.identities()[c] == before.archetypes.identities()[c]);
                }
            }
        }
        id
    }

    /// Spawns an entity with the given components and their values:
    /// `table_values[i]` for the `i`-th smallest component of
    /// `table_components`, and `sparse_values[i]` for
    /// `sparse_set_components[i]`, where the first value given for a
    /// component counts. The archetype is found by the sorted lists, see
    /// [`sorted_set`]. The archetype and its table are created if they do
    /// not exist yet. The lists have to file each component as it is
    /// registered. All values are added at `change_tick`, and the values of
    /// all other entities stay with them.
    pub fn spawn(
        &mut self,
        table_components: Vec<ComponentId>,
        sparse_set_components: Vec<ComponentId>,
        table_values: Vec<Vec<u8>>,
        sparse_values: Vec<Vec<u8>>,
        change_tick: u32,
    ) -> (entity: Entity)
        requires
            old(self).wf(),
            filed_as_registered(
                (table_components@, sparse_set_components@),
                old(self).components@,
            ),
            !old(self).archetypes.identities().contains(
                sorted_key(table_components@, sparse_set_components@),
            ) ==> old(self).archetypes@.len() < u32::MAX && old(self).archetypes.component_count()
                + sorted_set(table_components@).len() + sorted_set(sparse_set_components@).len()
                <= u32::MAX,
            table_values@.len() == distinct_indices(
                Seq::empty(),
                sorted_set(table_components@),
            ).len(),
            sparse_values@.len() == sparse_set_components@.len(),
            old(self).entities.free_slots().len() == 0 ==> old(self).entities@.len() < u32::MAX,
        ensures
            final(self).wf(),
            !old(self).entities.is_live(entity),
            final(self).archetypes.identities() == register(
                old(self).archetypes.identities(),
                sorted_key(table_components@, sparse_set_components@),
            ),
            final(self).storages.tables.keys() == register(
                old(self).storages.tables.keys(),
                sorted_set(table_components@),
            ),
            final(self).entities.location_of(entity) matches Some(location) && {
                let a = location.archetype_id.spec_index() as int;
                let t = final(self).table_of(a);
                &&& a == id_for(
                    old(self).archetypes.identities(),
                    sorted_key(table_components@, sparse_set_components@),
                )
                &&& t == id_for(old(self).storages.tables.keys(), sorted_set(table_components@))
                &&& location.index == final(self).archetypes@[a]@.len() - 1
                &&& final(self).archetypes@[a]@.last().entity == entity
                &&& final(self).archetypes@[a]@.last().table_row == final(self).storages.tables@[t]@.len() - 1
                &&& final(self).storages.tables@[t]@.last() == entity
                &&& forall|i: int|
                    0 <= i < table_values@.len()
                        ==> (#[trigger] final(self).storages.tables@[t].column_cells()[i]).last() == (
                        table_values@[i]@,
                        ComponentTicks {
                            added: Tick { tick: change_tick },
                            changed: Tick { tick: change_tick },
                        },
                    )
            },
            forall|other: Entity|
                other != entity ==> #[trigger] final(self).entities.location_of(other)
                    == old(self).entities.location_of(other),
            final(self).storages.resources == old(self).storages.resources,
            final(self).catalog_kept(old(self)),
            forall|p: int|
                0 <= p < sparse_set_components@.len() && (forall|j: int|
                    0 <= j < p ==> sparse_set_components@[j].0 != sparse_set_components@[p].0)
                    ==> final(self).cell_of(entity, #[trigger] sparse_set_components@[p]) == Some(
                    (
                        sparse_values@[p]@,
                        ticks_after_write(
                            old(self).storages.sparse_sets.cell_of(sparse_set_components@[p].0, entity),
                            change_tick,
                        ),
                    ),
                ),
            forall|other: Entity, id: ComponentId|
                other != entity ==> #[trigger] final(self).cell_of(other, id) == old(self).cell_of(
                    other,
                    id,
                ),
    {
        let sparse_ids = copy_ids(&sparse_set_components);
        let ghost given_table = table_components@;
        let ghost given_sparse = sparse_set_components@;
        proof {
            lemma_sorted_set(given_table);
            lemma_sorted_set(given_sparse);
            lemma_sorted_set_registered(
                given_table,
                self.components@,
                StorageType::Table,
            );
            lemma_sorted_set_registered(
                given_sparse,
                self.components@,
                StorageType::SparseSet,
            );
        }
        let table_components = sort_ids(&table_components);
        let sparse_set_components = sort_ids(&sparse_set_components);
        let entity = self.place(table_components, sparse_set_components, table_values, change_tick);
        let ghost placed = *self;
        self.storages.sparse_sets.insert_all(entity, &sparse_ids, sparse_values, change_tick);
        proof {
            let after = *self;
            after.lemma_rows_kept(&placed);
            assert(after.catalog_kept(&placed));
            after.lemma_catalog_kept(&placed);
            let location = after.entities.location_of(entity)->0;
            let a = location.archetype_id.spec_index() as int;
            lemma_register_extends(
                old(self).archetypes.identities(),
                sorted_key(given_table, given_sparse),
            );
            assert(after.archetypes.identities()[a].1 == sorted_set(sparse_ids@));
            assert forall|other: Entity, id: ComponentId| other != entity implies #[trigger] after.cell_of(
                other,
                id,
            ) == old(self).cell_of(other, id) by {
                assert(placed.cell_of(other, id) == old(self).cell_of(other, id));
                if other.index == entity.index {
                    assert(after.entities.location_of(other) is None);
                } else {
                    assert(after.storages.sparse_sets.cell_of(id.0, other)
                        == placed.storages.sparse_sets.cell_of(id.0, other));
                }
            }
            assert forall|p: int|
                0 <= p < sparse_ids@.len() && (forall|j: int|
                    0 <= j < p ==> sparse_ids@[j].0 != sparse_ids@[p].0) implies after.cell_of(
                entity,
                #[trigger] sparse_ids@[p],
            ) == Some(
                (
                    sparse_values@[p]@,
                    ticks_after_write(
                        old(self).storages.sparse_sets.cell_of(sparse_ids@[p].0, entity),
                        change_tick,
                    ),
                ),
            ) by {
                assert(after.archetypes.identities()[a].1.contains(sparse_ids@[p]));
            }
        }
        entity
    }

    /// Spawns an entity in the archetype of the given components, which are
    /// sorted already, with the values of its table components, see
    /// [`World::spawn`]. The sparse sets are left as they are.
    fn place(
        &mut self,
        table_components: Vec<ComponentId>,
        sparse_set_components: Vec<ComponentId>,
        table_values: Vec<Vec<u8>>,
        change_tick: u32,
    ) -> (entity: Entity)
        requires
            old(self).wf(),
            strictly_sorted(table_components@),
            strictly_sorted(sparse_set_components@),
            filed_as_registered(
                (table_components@, sparse_set_components@),
                old(self).components@,
            ),
            !old(self).archetypes.identities().contains(
                (table_components@, sparse_set_components@),
            ) ==> old(self).archetypes@.len() < u32::MAX && old(self).archetypes.component_count()
                + table_components@.len() + sparse_set_components@.len() <= u32::MAX,
            table_values@.len() == distinct_indices(Seq::empty(), table_components@).len(),
            old(self).entities.free_slots().len() == 0 ==> old(self).entities@.len() < u32::MAX,
        ensures
            final(self).wf(),
            !old(self).entities.is_live(entity),
            final(self).archetypes.identities() == register(
                old(self).archetypes.identities(),
                (table_components@, sparse_set_components@),
            ),
            final(self).storages.tables.keys() == register(
                old(self).storages.tables.keys(),
                table_components@,
            ),
            final(self).entities.location_of(entity) matches Some(location) && {
                let a = location.archetype_id.spec_index() as int;
                let t = final(self).table_of(a);
                &&& a == id_for(
                    old(self).archetypes.identities(),
                    (table_components@, sparse_set_components@),
                )
                &&& t == id_for(old(self).storages.tables.keys(), table_components@)
                &&& location.index == final(self).archetypes@[a]@.len() - 1
                &&& final(self).archetypes@[a]@.last().entity == entity
                &&& final(self).archetypes@[a]@.last().table_row == final(self).storages.tables@[t]@.len() - 1
                &&& final(self).storages.tables@[t]@.last() == entity
                &&& forall|i: int|
                    0 <= i < table_values@.len()
                        ==> (#[trigger] final(self).storages.tables@[t].column_cells()[i]).last() == (
                        table_values@[i]@,
                        ComponentTicks {
                            added: Tick { tick: change_tick },
                            changed: Tick { tick: change_tick },
                        },
                    )
            },
            forall|other: Entity|
                other != entity ==> #[trigger] final(self).entities.location_of(other)
                    == old(self).entities.location_of(other),
            final(self).storages.resources == old(self).storages.resources,
            final(self).catalog_kept(old(self)),
            final(self).storages.sparse_sets == old(self).storages.sparse_sets,
            forall|other: Entity, id: ComponentId|
                other != entity ==> #[trigger] final(self).cell_of(other, id) == old(self).cell_of(
                    other,
                    id,
                ),
    {
        let archetype_id = self.archetype_for_sorted(table_components, sparse_set_components);
        let ghost middle = *self;
        let ghost a = archetype_id.spec_index() as int;
        let ghost t = middle.table_of(a);
        proof {
            assert(0 <= middle.table_of(a) < middle.storages.tables@.len());
            assert(middle.storages.tables@[t].wf());
            lemma_register_extends(old(self).storages.tables.keys(), table_components@);
            assert(middle.storages.tables.keys()[t] == table_components@);
            middle.storages.tables@[t].lemma_wf();
        }
        let entity = self.spawn_in(archetype_id, table_values, change_tick);
        proof {
            let location = self.entities.location_of(entity)->0;
            assert(location.archetype_id.spec_index() == a);
            assert(self.table_of(a) == t) by {
                assert(self.entry_consistent(a, location.index as int));
                assert(self.archetypes@[a].spec_table_id() == middle.archetypes@[a].spec_table_id()) by {
                    assert(self.archetypes.wf());
                    assert(0 <= self.table_of(a) < self.storages.tables@.len());
                    assert(self.storages.tables.keys()[self.table_of(a)]
                        == self.archetypes.identities()[a].0);
                    assert(self.storages.tables.keys()[self.table_of(a)] == middle.storages.tables.keys()[t]);
                    assert(self.storages.tables.keys().no_duplicates());
                }
            }
            assert forall|i: int| 0 <= i < table_values@.len() implies (
            #[trigger] self.storages.tables@[t].column_cells()[i]).last() == (
                table_values@[i]@,
                ComponentTicks {
                    added: Tick { tick: change_tick },
                    changed: Tick { tick: change_tick },
                },
            ) by {
                assert(self.storages.tables@[t].column_cells()[i]
                    == middle.storages.tables@[t].column_cells()[i].push(
                    (
                        table_values@[i]@,
                        ComponentTicks {
                            added: Tick { tick: change_tick },
                            changed: Tick { tick: change_tick },
                        },
                    ),
                ));
            }
        }
        entity
    }
}

} // verus!
