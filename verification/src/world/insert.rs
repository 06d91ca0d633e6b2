//! Inserting bundles: registries, the cache of add-bundle edges, and the
//! move of an entity to the archetype that has the bundle's components too.

use crate::archetype::{
    insert_sorted, inserted, lemma_identity_slots_dom, lemma_inserted, slots_before, ArchetypeId,
    ComponentStatus, IdentityKey,
};
use crate::bundle::BundleId;
use crate::component::{ComponentId, ComponentInfo, ComponentTicks, StorageType, Tick};
use crate::entity::Entity;
use crate::registry::lemma_register_extends;
use crate::storage::column::ticks_after_write;
use crate::storage::table::{
    distinct_indices, lemma_missing_before_monotonic, missing_before, moved_cell, Table,
};
use crate::world::moves::moved_to;
use crate::world::spawn::copy_ids;
use crate::world::{
    bundle_statuses, has_component, lemma_with_bundle_filed, lemma_with_bundle_sorted, with_bundle,
    World,
};
use vstd::prelude::*;

verus! {

/// `with_bundle` looks only at the registered storage types of the bundle's
/// components.
pub proof fn lemma_with_bundle_registry(
    key: IdentityKey,
    bundle: Seq<ComponentId>,
    before: Seq<ComponentInfo>,
    after: Seq<ComponentInfo>,
    n: int,
)
    requires
        0 <= n <= bundle.len(),
        forall|i: int| 0 <= i < n ==> (#[trigger] bundle[i]).0 < before.len(),
        before.is_prefix_of(after),
    ensures
        with_bundle(key, bundle, before, n) == with_bundle(key, bundle, after, n),
    decreases n,
{
    if n > 0 {
        lemma_with_bundle_registry(key, bundle, before, after, n - 1);
        assert(after[bundle[n - 1].0 as int] == before[bundle[n - 1].0 as int]);
    }
}

/// What `with_bundle` holds: the components of the archetype and the first
/// `n` components of the bundle.
pub proof fn lemma_with_bundle(
    key: IdentityKey,
    bundle: Seq<ComponentId>,
    components: Seq<ComponentInfo>,
    n: int,
)
    requires
        0 <= n <= bundle.len(),
    ensures
        forall|x: ComponentId| #[trigger]
            has_component(with_bundle(key, bundle, components, n), x) <==> has_component(key, x)
                || bundle.take(n).contains(x),
        forall|x: ComponentId| #[trigger]
            with_bundle(key, bundle, components, n).0.contains(x) <==> key.0.contains(x) || (
            bundle.take(n).contains(x) && !has_component(key, x) && components[x.0 as int].storage_type
                == StorageType::Table),
        forall|x: ComponentId| #[trigger]
            with_bundle(key, bundle, components, n).1.contains(x) <==> key.1.contains(x) || (
            bundle.take(n).contains(x) && !has_component(key, x) && components[x.0 as int].storage_type
                != StorageType::Table),
    decreases n,
{
    if n > 0 {
        let before = with_bundle(key, bundle, components, n - 1);
        let id = bundle[n - 1];
        lemma_with_bundle(key, bundle, components, n - 1);
        lemma_inserted(before.0, id);
        lemma_inserted(before.1, id);
        let prefix = bundle.take(n - 1);
        let taken = bundle.take(n);
        assert(taken[n - 1] == id);
        assert forall|x: ComponentId| taken.contains(x) <==> prefix.contains(x) || x == id by {
            if prefix.contains(x) {
                let i = choose|i: int| 0 <= i < prefix.len() && prefix[i] == x;
                assert(taken[i] == x);
            }
            if taken.contains(x) {
                let i = choose|i: int| 0 <= i < taken.len() && taken[i] == x;
                if i < n - 1 {
                    assert(prefix[i] == x);
                }
            }
        }
    } else {
        assert(bundle.take(0).len() == 0);
    }
}

/// A bundle whose components the archetype has already leads to the
/// archetype itself: inserting it overwrites values in place.
pub proof fn law_present_bundle_keeps_the_archetype(
    key: IdentityKey,
    bundle: Seq<ComponentId>,
    components: Seq<ComponentInfo>,
    n: int,
)
    requires
        0 <= n <= bundle.len(),
        forall|i: int| 0 <= i < n ==> has_component(key, #[trigger] bundle[i]),
    ensures
        with_bundle(key, bundle, components, n) == key,
    decreases n,
{
    if n > 0 {
        law_present_bundle_keeps_the_archetype(key, bundle, components, n - 1);
        assert(has_component(key, bundle[n - 1]));
    }
}

impl World {
    /// Registers a new component type, see [`Components::init_component`].
    /// Nothing else changes.
    pub fn init_component(&mut self, storage_type: StorageType, size: usize) -> (id: ComponentId)
        requires
            old(self).wf(),
        ensures
            final(self).wf(),
            id.0 == old(self).components@.len(),
            final(self).components@ == old(self).components@.push(
                ComponentInfo { id, storage_type, size },
            ),
            final(self).bundles == old(self).bundles,
            final(self).entities == old(self).entities,
            final(self).archetypes == old(self).archetypes,
            final(self).storages == old(self).storages,
    {
        let id = self.components.init_component(storage_type, size);
        proof {
            let before = *old(self);
            let after = *self;
            assert(before.components@.is_prefix_of(after.components@));
            assert forall|a: int, b: usize|
                0 <= a < after.archetypes@.len()
                    && after.archetypes@[a].spec_edges().add_edges().contains_key(
                    b,
                ) implies #[trigger] after.add_edge_valid(a, b) by {
                assert(before.add_edge_valid(a, b));
                let bundle = before.bundles@[b as int];
                assert forall|i: int| 0 <= i < bundle.len() implies (#[trigger] bundle[i]).0
                    < before.components@.len() by {
                    assert(before.bundles@[b as int][i].0 < before.components@.len());
                }
                lemma_with_bundle_registry(
                    before.archetypes.identities()[a],
                    bundle,
                    before.components@,
                    after.components@,
                    bundle.len() as int,
                );
            }
            assert forall|a: int, b: usize|
                0 <= a < after.archetypes@.len()
                    && after.archetypes@[a].spec_edges().remove_intersection_edges().contains_key(
                    b,
                ) implies #[trigger] after.remove_edge_valid(a, b) by {
                assert(before.remove_edge_valid(a, b));
            }
            assert forall|b: int, i: int|
                0 <= b < after.bundles@.len() && 0 <= i < after.bundles@[b].len() implies (
            #[trigger] after.bundles@[b][i]).0 < after.components@.len() by {
                assert(before.bundles@[b][i].0 < before.components@.len());
            }
            assert forall|a: int, i: int|
                0 <= a < after.archetypes@.len() && 0 <= i
                    < after.archetypes@[a]@.len() implies #[trigger] after.entry_consistent(
                a,
                i,
            ) by {
                assert(before.entry_consistent(a, i));
            }
            assert forall|t: int, r: int|
                0 <= t < after.storages.tables@.len() && 0 <= r
                    < after.storages.tables@[t]@.len() implies #[trigger] after.row_consistent(
                t,
                r,
            ) by {
                assert(before.row_consistent(t, r));
            }
            assert forall|slot: int| 0 <= slot
                < after.entities@.len() implies #[trigger] after.location_consistent(
                slot,
            ) by {
                assert(before.location_consistent(slot));
            }
            assert forall|a: int| 0 <= a < after.archetypes@.len() implies 0
                <= #[trigger] after.table_of(a) < after.storages.tables@.len()
                && after.storages.tables.keys()[after.table_of(a)]
                == after.archetypes.identities()[a].0 by {
                assert(0 <= before.table_of(a) < before.storages.tables@.len());
            }
        }
        id
    }

    /// Registers a bundle of the given components, which must be registered
    /// and all different, see [`Bundles::init_info`]. Nothing else changes.
    pub fn init_bundle(&mut self, component_ids: Vec<ComponentId>) -> (id: BundleId)
        requires
            old(self).wf(),
            component_ids@.no_duplicates(),
            forall|i: int|
                0 <= i < component_ids@.len() ==> (#[trigger] component_ids@[i]).0
                    < old(self).components@.len(),
        ensures
            final(self).wf(),
            id.0 == old(self).bundles@.len(),
            final(self).bundles@ == old(self).bundles@.push(component_ids@),
            final(self).components == old(self).components,
            final(self).entities == old(self).entities,
            final(self).archetypes == old(self).archetypes,
            final(self).storages == old(self).storages,
    {
        let id = self.bundles.init_info(component_ids);
        proof {
            let before = *old(self);
            let after = *self;
            assert forall|a: int, b: usize|
                0 <= a < after.archetypes@.len()
                    && after.archetypes@[a].spec_edges().add_edges().contains_key(
                    b,
                ) implies #[trigger] after.add_edge_valid(a, b) by {
                assert(before.add_edge_valid(a, b));
                assert(after.bundles@[b as int] == before.bundles@[b as int]);
            }
            assert forall|a: int, b: usize|
                0 <= a < after.archetypes@.len()
                    && after.archetypes@[a].spec_edges().remove_intersection_edges().contains_key(
                    b,
                ) implies #[trigger] after.remove_edge_valid(a, b) by {
                assert(before.remove_edge_valid(a, b));
                assert(after.bundles@[b as int] == before.bundles@[b as int]);
            }
            assert forall|b: int, i: int|
                0 <= b < after.bundles@.len() && 0 <= i < after.bundles@[b].len() implies (
            #[trigger] after.bundles@[b][i]).0 < after.components@.len() by {
                if b < before.bundles@.len() {
                    assert(after.bundles@[b] == before.bundles@[b]);
                    assert(before.bundles@[b][i].0 < before.components@.len());
                }
            }
            assert forall|a: int, i: int|
                0 <= a < after.archetypes@.len() && 0 <= i
                    < after.archetypes@[a]@.len() implies #[trigger] after.entry_consistent(
                a,
                i,
            ) by {
                assert(before.entry_consistent(a, i));
            }
            assert forall|t: int, r: int|
                0 <= t < after.storages.tables@.len() && 0 <= r
                    < after.storages.tables@[t]@.len() implies #[trigger] after.row_consistent(
                t,
                r,
            ) by {
                assert(before.row_consistent(t, r));
            }
            assert forall|slot: int| 0 <= slot
                < after.entities@.len() implies #[trigger] after.location_consistent(
                slot,
            ) by {
                assert(before.location_consistent(slot));
            }
            assert forall|a: int| 0 <= a < after.archetypes@.len() implies 0
                <= #[trigger] after.table_of(a) < after.storages.tables@.len()
                && after.storages.tables.keys()[after.table_of(a)]
                == after.archetypes.identities()[a].0 by {
                assert(0 <= before.table_of(a) < before.storages.tables@.len());
            }
        }
        id
    }
}

impl World {
    /// The archetype that an entity of the archetype `archetype_id` moves
    /// to when the bundle `bundle_id` is inserted: read from the cache of
    /// edges if it is there, and otherwise computed from the components of
    /// the archetype and of the bundle, created if it does not exist yet,
    /// and put into the cache for the next time.
    ///
    /// Entities, their locations and all values stay as they are.
    pub fn add_bundle_target(
        &mut self,
        archetype_id: ArchetypeId,
        bundle_id: BundleId,
    ) -> (target: ArchetypeId)
        requires
            old(self).wf(),
            archetype_id.spec_index() < old(self).archetypes@.len(),
            bundle_id.0 < old(self).bundles@.len(),
            !old(self).archetypes.identities().contains(
                with_bundle(
                    old(self).archetypes.identities()[archetype_id.spec_index() as int],
                    old(self).bundles@[bundle_id.0 as int],
                    old(self).components@,
                    old(self).bundles@[bundle_id.0 as int].len() as int,
                ),
            ) ==> old(self).archetypes@.len() < u32::MAX && old(self).archetypes.component_count()
                + old(self).archetypes.identities()[archetype_id.spec_index() as int].0.len()
                + old(self).archetypes.identities()[archetype_id.spec_index() as int].1.len()
                + old(self).bundles@[bundle_id.0 as int].len() <= u32::MAX,
        ensures
            final(self).wf(),
            target.spec_index() < final(self).archetypes@.len(),
            final(self).archetypes.identities()[target.spec_index() as int] == with_bundle(
                old(self).archetypes.identities()[archetype_id.spec_index() as int],
                old(self).bundles@[bundle_id.0 as int],
                old(self).components@,
                old(self).bundles@[bundle_id.0 as int].len() as int,
            ),
            final(self).archetypes@[archetype_id.spec_index() as int].spec_edges().add_edges().contains_key(
                bundle_id.0,
            ),
            final(self).archetypes@[archetype_id.spec_index() as int].spec_edges().add_edges()[bundle_id.0]
                .archetype_id.spec_index() == target.spec_index(),
            final(self).components == old(self).components,
            final(self).bundles == old(self).bundles,
            final(self).entities == old(self).entities,
            final(self).storages.resources == old(self).storages.resources,
            final(self).storages.sparse_sets == old(self).storages.sparse_sets,
            old(self).archetypes.identities().is_prefix_of(final(self).archetypes.identities()),
            old(self).storages.tables.keys().is_prefix_of(final(self).storages.tables.keys()),
            forall|a: int|
                0 <= a < old(self).archetypes@.len() ==> (#[trigger] final(self).archetypes@[a])@
                    == old(self).archetypes@[a]@ && final(self).table_of(a) == old(self).table_of(a),
            forall|a: int|
                old(self).archetypes@.len() <= a < final(self).archetypes@.len() ==> (
                #[trigger] final(self).archetypes@[a])@.len() == 0,
            forall|t: int|
                0 <= t < old(self).storages.tables@.len()
                    ==> #[trigger] final(self).storages.tables@[t] == old(self).storages.tables@[t],
            forall|t: int|
                old(self).storages.tables@.len() <= t < final(self).storages.tables@.len() ==> (
                #[trigger] final(self).storages.tables@[t])@.len() == 0,
    {
        let ghost before = *old(self);
        let ghost a = archetype_id.spec_index() as int;
        let ghost key = before.archetypes.identities()[a];
        let ghost bundle = before.bundles@[bundle_id.0 as int];
        let cached: Option<ArchetypeId> = match self.archetypes.index(
            archetype_id,
        ).edges().get_add_bundle(bundle_id) {
            Some(edge) => Some(edge.archetype_id),
            None => None,
        };
        match cached {
            Some(target) => {
                proof {
                    assert(before.add_edge_valid(a, bundle_id.0));
                }
                return target;
            },
            None => {},
        }
        // the slow path: the components of the archetype and those of the bundle
        let info = match self.bundles.get(bundle_id) {
            Some(info) => info,
            None => vstd::pervasive::unreached(),
        };
        let identity = self.archetypes.identity(archetype_id);
        let mut table_components = copy_ids(identity.table_components());
        let mut sparse_set_components = copy_ids(identity.sparse_set_components());
        let mut bundle_status: Vec<ComponentStatus> = Vec::new();
        let archetype = self.archetypes.index(archetype_id);
        proof {
            assert(before.archetypes@[a].wf());
        }
        let mut i: usize = 0;
        while i < info.components().len()
            invariant
                i <= bundle.len(),
                before == *self,
                before.wf(),
                0 <= a < before.archetypes@.len(),
                key == before.archetypes.identities()[a],
                bundle == before.bundles@[bundle_id.0 as int],
                bundle.no_duplicates(),
                bundle_id.0 < before.bundles@.len(),
                info@ == bundle,
                *archetype == before.archetypes@[a],
                (table_components@, sparse_set_components@) == with_bundle(
                    key,
                    bundle,
                    before.components@,
                    i as int,
                ),
                bundle_status@ == bundle_statuses(key, bundle).take(i as int),
                table_components@.len() + sparse_set_components@.len() <= key.0.len()
                    + key.1.len() + i,
            decreases bundle.len() - i,
        {
            let id = info.components()[i];
            proof {
                lemma_identity_slots_dom(key, slots_before(before.archetypes.identities(), a), id.0);
                lemma_with_bundle(key, bundle, before.components@, i as int);
                // the bundle names `id` only once
                assert(!bundle.take(i as int).contains(id)) by {
                    if bundle.take(i as int).contains(id) {
                        let p = choose|p: int|
                            0 <= p < bundle.take(i as int).len() && bundle.take(i as int)[p] == id;
                        assert(bundle[p] == bundle[i as int]);
                    }
                }
                assert(before.bundles@[bundle_id.0 as int][i as int].0 < before.components@.len());
                lemma_inserted(table_components@, id);
                lemma_inserted(sparse_set_components@, id);
                assert(ComponentId(id.0) == id);
            }
            if archetype.contains(id) {
                bundle_status.push(ComponentStatus::Mutated);
            } else {
                bundle_status.push(ComponentStatus::Added);
                let storage_type = match self.components.get_info(id) {
                    Some(info) => info.storage_type,
                    None => vstd::pervasive::unreached(),
                };
                if storage_type == StorageType::Table {
                    table_components = insert_sorted(&table_components, id);
                } else {
                    sparse_set_components = insert_sorted(&sparse_set_components, id);
                }
            }
            proof {
                assert(bundle_status@ =~= bundle_statuses(key, bundle).take(i + 1));
            }
            i += 1;
        }
        proof {
            assert(bundle_statuses(key, bundle).take(bundle.len() as int) =~= bundle_statuses(
                key,
                bundle,
            ));
        }
        let ghost target_key = (table_components@, sparse_set_components@);
        proof {
            assert(before.archetypes.identities()[a] == key);
            assert forall|i: int| 0 <= i < bundle.len() implies (#[trigger] bundle[i]).0
                < before.components@.len() by {
                assert(before.bundles@[bundle_id.0 as int][i].0 < before.components@.len());
            }
            lemma_with_bundle_filed(key, bundle, before.components@, bundle.len() as int);
            lemma_with_bundle_sorted(key, bundle, before.components@, bundle.len() as int);
        }
        let target = self.archetype_for_sorted(table_components, sparse_set_components);
        let ghost middle = *self;
        proof {
            lemma_register_extends(before.archetypes.identities(), target_key);
            lemma_register_extends(before.storages.tables.keys(), target_key.0);
        }
        self.archetypes.index_mut(archetype_id).edges_mut().insert_add_bundle(
            bundle_id,
            target,
            bundle_status,
        );
        proof {
            let after = *self;
            assert(after.archetypes.identities() == middle.archetypes.identities());
            assert forall|c: int| 0 <= c < after.archetypes@.len() implies (
            #[trigger] after.archetypes@[c])@ == middle.archetypes@[c]@ && after.table_of(c)
                == middle.table_of(c) && after.archetypes@[c].wf() == middle.archetypes@[c].wf()
                && after.archetypes@[c].spec_id() == middle.archetypes@[c].spec_id()
                && after.archetypes@[c].slots() == middle.archetypes@[c].slots()
                && after.archetypes@[c].component_order()
                == middle.archetypes@[c].component_order() by {}
            assert(after.archetypes.wf()) by {
                assert forall|c: int| 0 <= c < after.archetypes@.len() implies (
                #[trigger] after.archetypes@[c]).wf() by {
                    assert(middle.archetypes@[c].wf());
                }
            }
            assert forall|c: int| 0 <= c < after.archetypes@.len() implies 0
                <= #[trigger] after.table_of(c) < after.storages.tables@.len()
                && after.storages.tables.keys()[after.table_of(c)]
                == after.archetypes.identities()[c].0 by {
                assert(0 <= middle.table_of(c) < middle.storages.tables@.len());
            }
            assert forall|c: int, j: int|
                0 <= c < after.archetypes@.len() && 0 <= j
                    < after.archetypes@[c]@.len() implies #[trigger] after.entry_consistent(
                c,
                j,
            ) by {
                assert(middle.entry_consistent(c, j));
            }
            assert forall|t: int, r: int|
                0 <= t < after.storages.tables@.len() && 0 <= r
                    < after.storages.tables@[t]@.len() implies #[trigger] after.row_consistent(
                t,
                r,
            ) by {
                assert(middle.row_consistent(t, r));
                let location = middle.entities.location_of(middle.storages.tables@[t]@[r])->0;
                let c = location.archetype_id.spec_index() as int;
                assert(after.archetypes@[c]@ == middle.archetypes@[c]@);
            }
            assert forall|slot: int| 0 <= slot
                < after.entities@.len() implies #[trigger] after.location_consistent(
                slot,
            ) by {
                assert(middle.location_consistent(slot));
                if middle.entities@[slot].live && middle.entities@[slot].location is Some {
                    let c = middle.entities@[slot].location->0.archetype_id.spec_index() as int;
                    assert(after.archetypes@[c]@ == middle.archetypes@[c]@);
                }
            }
            assert forall|c: int, b: usize|
                0 <= c < after.archetypes@.len()
                    && after.archetypes@[c].spec_edges().add_edges().contains_key(
                    b,
                ) implies #[trigger] after.add_edge_valid(c, b) by {
                if c == a && b == bundle_id.0 {
                    assert(after.archetypes.identities()[a] == key);
                } else {
                    assert(middle.archetypes@[c].spec_edges().add_edges().contains_key(b));
                    assert(middle.add_edge_valid(c, b));
                }
            }
            assert forall|c: int, b: usize|
                0 <= c < after.archetypes@.len()
                    && after.archetypes@[c].spec_edges().remove_intersection_edges().contains_key(
                    b,
                ) implies #[trigger] after.remove_edge_valid(c, b) by {
                assert(middle.remove_edge_valid(c, b));
            }
            assert forall|c: int|
                before.archetypes@.len() <= c < after.archetypes@.len() implies (
            #[trigger] after.archetypes@[c])@.len() == 0 by {
                assert(middle.archetypes@[c] == middle.archetypes@.last());
            }
            assert forall|t: int|
                before.storages.tables@.len() <= t < after.storages.tables@.len() implies (
            #[trigger] after.storages.tables@[t])@.len() == 0 by {
                assert(after.storages.tables@[t] == middle.storages.tables@.last());
            }
        }
        target
    }
}

/// Puts each value into a slot of its own, from which it can be taken.
pub fn wrap_values(values: Vec<Vec<u8>>) -> (slots: Vec<Option<Vec<u8>>>)
    ensures
        slots@.len() == values@.len(),
        forall|i: int| 0 <= i < values@.len() ==> #[trigger] slots@[i] == Some(values@[i]),
{
    let mut values = values;
    let ghost all = values@;
    // the values come off the end, so the first pass turns them around and the
    // second pass turns them back
    let mut reversed: Vec<Vec<u8>> = Vec::new();
    while values.len() > 0
        invariant
            values@.len() + reversed@.len() == all.len(),
            values@ == all.take(values@.len() as int),
            forall|i: int|
                0 <= i < reversed@.len() ==> #[trigger] reversed@[i] == all[all.len() - 1 - i],
        decreases values@.len(),
    {
        let value = values.pop().unwrap();
        reversed.push(value);
        assert(values@ =~= all.take(values@.len() as int));
    }
    let mut slots: Vec<Option<Vec<u8>>> = Vec::new();
    while reversed.len() > 0
        invariant
            reversed@.len() + slots@.len() == all.len(),
            forall|i: int|
                0 <= i < reversed@.len() ==> #[trigger] reversed@[i] == all[all.len() - 1 - i],
            forall|i: int| 0 <= i < slots@.len() ==> #[trigger] slots@[i] == Some(all[i]),
        decreases reversed@.len(),
    {
        let ghost earlier = reversed@;
        let value = reversed.pop().unwrap();
        assert(value == earlier[earlier.len() - 1]);
        assert forall|i: int| 0 <= i < reversed@.len() implies #[trigger] reversed@[i]
            == all[all.len() - 1 - i] by {
            assert(reversed@[i] == earlier[i]);
        }
        slots.push(Some(value));
    }
    slots
}

/// Takes the value out of slot `i`, which must hold one.
pub fn take_value(slots: &mut Vec<Option<Vec<u8>>>, i: usize) -> (value: Vec<u8>)
    requires
        i < old(slots)@.len(),
        old(slots)@[i as int] is Some,
    ensures
        Some(value) == old(slots)@[i as int],
        final(slots)@ == old(slots)@.update(i as int, None),
{
    let mut taken: Option<Vec<u8>> = None;
    core::mem::swap(&mut slots[i], &mut taken);
    taken.unwrap()
}

/// The position of `id` in `ids`, if it is there.
pub fn position_of(ids: &Vec<ComponentId>, id: ComponentId) -> (r: Option<usize>)
    ensures
        match r {
            Some(i) => i < ids@.len() && ids@[i as int] == id,
            None => !ids@.contains(id),
        },
{
    let mut i: usize = 0;
    while i < ids.len()
        invariant
            i <= ids@.len(),
            forall|j: int| 0 <= j < i ==> ids@[j] != id,
        decreases ids@.len() - i,
    {
        if ids[i] == id {
            return Some(i);
        }
        i += 1;
    }
    None
}

/// Takes out of `slots` the values for the columns that `dst` has and `src`
/// lacks, in the order of the columns of `dst`. The value for a column is
/// the one in the slot of the bundle component of that column.
pub fn gather_added(
    src: &Table,
    dst: &Table,
    bundle: &Vec<ComponentId>,
    slots: &mut Vec<Option<Vec<u8>>>,
) -> (added: Vec<Vec<u8>>)
    requires
        src.wf(),
        dst.wf(),
        bundle@.no_duplicates(),
        old(slots)@.len() == bundle@.len(),
        forall|i: int| 0 <= i < bundle@.len() ==> (#[trigger] old(slots)@[i]) is Some,
        forall|j: int|
            0 <= j < dst.column_ids().len() && !src.has(#[trigger] dst.column_ids()[j])
                ==> bundle@.contains(ComponentId(dst.column_ids()[j])),
    ensures
        added@.len() == missing_before(src, dst.column_ids(), dst.column_ids().len() as int),
        final(slots)@.len() == bundle@.len(),
        forall|i: int|
            0 <= i < bundle@.len() ==> #[trigger] final(slots)@[i] == if dst.has(bundle@[i].0)
                && !src.has(bundle@[i].0) {
                None
            } else {
                old(slots)@[i]
            },
        forall|j: int, i: int|
            0 <= j < dst.column_ids().len() && 0 <= i < bundle@.len() && (#[trigger] bundle@[i]).0
                == #[trigger] dst.column_ids()[j] && !src.has(dst.column_ids()[j]) ==> Some(
                added@[missing_before(src, dst.column_ids(), j) as int],
            ) == old(slots)@[i],
{
    let ghost ids = dst.column_ids();
    proof {
        dst.lemma_wf();
    }
    let mut added: Vec<Vec<u8>> = Vec::new();
    // for each added value the slot it came from, and for each slot the column it went to
    let ghost mut from: Seq<int> = Seq::empty();
    let ghost mut column_of: Seq<int> = Seq::new(bundle@.len(), |i: int| -1);
    let m: usize = dst.column_count();
    let mut j: usize = 0;
    while j < m
        invariant
            j <= m,
            m == ids.len(),
            ids == dst.column_ids(),
            ids.no_duplicates(),
            src.wf(),
            dst.wf(),
            bundle@.no_duplicates(),
            slots@.len() == bundle@.len(),
            column_of.len() == bundle@.len(),
            from.len() == added@.len(),
            forall|p: int|
                0 <= p < ids.len() && !src.has(#[trigger] ids[p]) ==> bundle@.contains(
                    ComponentId(ids[p]),
                ),
            added@.len() == missing_before(src, ids, j as int),
            forall|i: int|
                0 <= i < bundle@.len() ==> ((#[trigger] column_of[i]) >= 0 <==> slots@[i] is None)
                    && (slots@[i] is Some ==> slots@[i] == old(slots)@[i]),
            forall|i: int|
                0 <= i < bundle@.len() && (#[trigger] column_of[i]) >= 0 ==> column_of[i] < j
                    && ids[column_of[i]] == bundle@[i].0 && !src.has(bundle@[i].0),
            forall|q: int|
                0 <= q < from.len() ==> 0 <= (#[trigger] from[q]) < bundle@.len() && Some(added@[q])
                    == old(slots)@[from[q]],
            forall|p: int|
                0 <= p < j && !src.has(#[trigger] ids[p]) ==> missing_before(src, ids, p)
                    < from.len() && column_of[from[missing_before(src, ids, p) as int]] == p,
        decreases m - j,
    {
        let k: usize = dst.column_id_at(j);
        if !src.has_column(ComponentId(k)) {
            let i: usize = match position_of(bundle, ComponentId(k)) {
                Some(i) => i,
                None => {
                    proof {
                        assert(!src.has(ids[j as int]));
                    }
                    vstd::pervasive::unreached()
                },
            };
            proof {
                // the slot is still full: a column that took it would be this column
                if column_of[i as int] >= 0 {
                    assert(ids[column_of[i as int]] == ids[j as int]);
                }
            }
            let value = take_value(slots, i);
            added.push(value);
            proof {
                let q = from.len() as int;
                from = from.push(i as int);
                column_of = column_of.update(i as int, j as int);
                assert forall|p: int| 0 <= p < j + 1 && !src.has(#[trigger] ids[p]) implies missing_before(
                    src,
                    ids,
                    p,
                ) < from.len() && column_of[from[missing_before(src, ids, p) as int]] == p by {
                    lemma_missing_before_monotonic(src, ids, p, j as int);
                    if p < j {
                        lemma_missing_before_monotonic(src, ids, p + 1, j as int);
                        let w = from[missing_before(src, ids, p) as int];
                        assert(w != i);
                    }
                }
            }
        }
        j += 1;
    }
    proof {
        assert forall|i: int| 0 <= i < bundle@.len() implies #[trigger] slots@[i] == if dst.has(
            bundle@[i].0,
        ) && !src.has(bundle@[i].0) {
            None
        } else {
            old(slots)@[i]
        } by {
            if column_of[i] >= 0 {
                assert(ids.contains(ids[column_of[i]]));
            } else if dst.has(bundle@[i].0) && !src.has(bundle@[i].0) {
                assert(ids.contains(bundle@[i].0));
                let p = choose|p: int| 0 <= p < ids.len() && ids[p] == bundle@[i].0;
                assert(!src.has(ids[p]));
                let w = from[missing_before(src, ids, p) as int];
                assert(column_of[w] == p);
                assert(bundle@[w].0 == bundle@[i].0);
                assert(bundle@[w] == bundle@[i]);
            }
        }
        assert forall|p: int, i: int|
            0 <= p < ids.len() && 0 <= i < bundle@.len() && (#[trigger] bundle@[i]).0
                == #[trigger] ids[p] && !src.has(ids[p]) implies Some(
            added@[missing_before(src, ids, p) as int],
        ) == old(slots)@[i] by {
            let w = from[missing_before(src, ids, p) as int];
            assert(column_of[w] == p);
            assert(bundle@[w].0 == bundle@[i].0);
            assert(bundle@[w] == bundle@[i]);
        }
    }
    added
}

/// Only values of `entity` differ between the two worlds: no entity has
/// moved, the cells of all rows but row `row` of table `t` are the same, and
/// so are the cells that the sparse sets hold for other slots.
pub open spec fn only_written(before: &World, after: &World, entity: Entity, t: int, row: int) -> bool {
    &&& after.entities == before.entities
    &&& after.archetypes == before.archetypes
    &&& after.storages.tables@.len() == before.storages.tables@.len()
    &&& forall|u: int|
        0 <= u < before.storages.tables@.len() && u != t ==> #[trigger] after.storages.tables@[u]
            == before.storages.tables@[u]
    &&& forall|k: usize, r: int|
        0 <= r < before.storages.tables@[t]@.len() && r != row && before.storages.tables@[t].has(k)
            ==> #[trigger] after.storages.tables@[t].cells_of(k)[r]
            == before.storages.tables@[t].cells_of(k)[r]
    &&& forall|k: usize, other: Entity|
        other.index != entity.index ==> #[trigger] after.storages.sparse_sets.cell_of(k, other)
            == before.storages.sparse_sets.cell_of(k, other)
}

/// Writing values of one entity leaves the values of every other entity
/// as they were.
pub proof fn lemma_written_frame(
    before: &World,
    after: &World,
    entity: Entity,
    other: Entity,
    id: ComponentId,
)
    requires
        before.wf(),
        before.row_of(entity) matches Some(place) && only_written(
            before,
            after,
            entity,
            place.0,
            place.1,
        ),
        other != entity,
    ensures
        after.cell_of(other, id) == before.cell_of(other, id),
{
    let place = before.entities.location_of(entity)->0;
    let b = place.archetype_id.spec_index() as int;
    let t = before.table_of(b);
    let row = before.archetypes@[b]@[place.index as int].table_row as int;
    assert(before.location_consistent(entity.index as int));
    before.lemma_row_owner(b, place.index as int);
    if before.entities.location_of(other) is Some {
        let location = before.entities.location_of(other)->0;
        let c = location.archetype_id.spec_index() as int;
        let i = location.index as int;
        assert(before.location_consistent(other.index as int));
        before.lemma_row_owner(c, i);
        let key = before.archetypes.identities()[c];
        let u = before.table_of(c);
        let r = before.archetypes@[c]@[i].table_row as int;
        if key.1.contains(id) {
            assert(other.index != entity.index);
            assert(after.storages.sparse_sets.cell_of(id.0, other)
                == before.storages.sparse_sets.cell_of(id.0, other));
        } else if key.0.contains(id) {
            assert(ComponentId(id.0) == id);
            assert(before.storages.tables.keys()[u] == key.0);
            if u == t {
                assert(before.storages.tables@[t].has(id.0));
                assert(r != row) by {
                    if r == row {
                        assert(before.row_consistent(t, row));
                    }
                }
                assert(after.storages.tables@[t].cells_of(id.0)[r]
                    == before.storages.tables@[t].cells_of(id.0)[r]);
            }
        }
    }
}

impl World {
    /// Writes the values that are left in `slots` over the values that
    /// `entity` has for the components of the bundle: `slots[i]` for the
    /// `i`-th component. The entity sits in row `row` of its table; table
    /// components are written there, sparse-set components into their sparse
    /// set. No entity moves, and no other value changes.
    fn write_values(
        &mut self,
        entity: Entity,
        bundle_id: BundleId,
        slots: &mut Vec<Option<Vec<u8>>>,
        change_tick: u32,
    )
        requires
            old(self).wf(),
            bundle_id.0 < old(self).bundles@.len(),
            old(slots)@.len() == old(self).bundles@[bundle_id.0 as int].len(),
            old(self).entities.location_of(entity) is Some,
            forall|i: int|
                0 <= i < old(slots)@.len() ==> has_component(
                    old(self).archetypes.identities()[old(self).entities.location_of(
                        entity,
                    )->0.archetype_id.spec_index() as int],
                    #[trigger] old(self).bundles@[bundle_id.0 as int][i],
                ),
        ensures
            final(self).wf(),
            final(self).components == old(self).components,
            final(self).bundles == old(self).bundles,
            final(self).entities == old(self).entities,
            final(self).archetypes == old(self).archetypes,
            final(self).storages.resources == old(self).storages.resources,
            final(self).storages.tables.keys() == old(self).storages.tables.keys(),
            final(self).storages.tables@.len() == old(self).storages.tables@.len(),
            forall|t: int|
                0 <= t < old(self).storages.tables@.len()
                    ==> (#[trigger] final(self).storages.tables@[t])@ == old(self).storages.tables@[t]@,
            forall|i: int|
                0 <= i < old(slots)@.len() && old(slots)@[i] is Some ==> final(self).cell_of(
                    entity,
                    #[trigger] old(self).bundles@[bundle_id.0 as int][i],
                ) == Some(
                    (
                        old(slots)@[i]->0@,
                        ticks_after_write(
                            old(self).cell_of(entity, old(self).bundles@[bundle_id.0 as int][i]),
                            change_tick,
                        ),
                    ),
                ),
            forall|id: ComponentId|
                (forall|i: int|
                    0 <= i < old(slots)@.len() && old(slots)@[i] is Some
                        ==> old(self).bundles@[bundle_id.0 as int][i] != id)
                            ==> #[trigger] final(self).cell_of(
                    entity,
                    id,
                ) == old(self).cell_of(entity, id),
            forall|other: Entity, id: ComponentId|
                other != entity ==> #[trigger] final(self).cell_of(other, id) == old(self).cell_of(
                    other,
                    id,
                ),
    {
        let ghost before = *old(self);
        let ghost bundle = before.bundles@[bundle_id.0 as int];
        let ghost given = slots@;
        let location = match self.entities.get(entity) {
            Some(location) => location,
            None => vstd::pervasive::unreached(),
        };
        let ghost b = location.archetype_id.spec_index() as int;
        let ghost key = before.archetypes.identities()[b];
        proof {
            assert(before.location_consistent(entity.index as int));
            assert(before.entry_consistent(b, location.index as int));
            assert(0 <= before.table_of(b) < before.storages.tables@.len());
            before.bundles.lemma_wf();
            assert(before.archetypes@[b].wf());
            before.storages.tables@[before.table_of(b)].lemma_wf();
        }
        let info = match self.bundles.get(bundle_id) {
            Some(info) => info,
            None => vstd::pervasive::unreached(),
        };
        let archetype = self.archetypes.index(location.archetype_id);
        let row: usize = archetype.entity_table_row(location.index);
        let table_id = archetype.table_id();
        let ghost t = table_id.0 as int;
        let n: usize = info.components().len();
        let mut i: usize = 0;
        while i < n
            invariant
                i <= n,
                n == bundle.len(),
                slots@.len() == n,
                given.len() == n,
                before.wf(),
                before == *old(self),
                bundle == before.bundles@[bundle_id.0 as int],
                bundle.no_duplicates(),
                info@ == bundle,
                *archetype == before.archetypes@[b],
                key == before.archetypes.identities()[b],
                0 <= b < before.archetypes@.len(),
                0 <= t < before.storages.tables@.len(),
                t == before.table_of(b),
                t == table_id.0,
                row < before.storages.tables@[t]@.len(),
                row == before.archetypes@[b]@[location.index as int].table_row,
                before.entities.location_of(entity) == Some(location),
                b == location.archetype_id.spec_index(),
                forall|p: int| 0 <= p < n ==> has_component(key, #[trigger] bundle[p]),
                self.components == before.components,
                self.bundles == before.bundles,
                self.entities == before.entities,
                self.archetypes == before.archetypes,
                self.storages.resources == before.storages.resources,
                self.storages.tables.wf(),
                self.storages.sparse_sets.wf(),
                self.storages.tables.keys() == before.storages.tables.keys(),
                self.storages.tables@.len() == before.storages.tables@.len(),
                forall|u: int|
                    0 <= u < before.storages.tables@.len() ==> (#[trigger] self.storages.tables@[u])@
                        == before.storages.tables@[u]@,
                forall|u: int|
                    0 <= u < before.storages.tables@.len() && u != t ==> #[trigger] self.storages.tables@[u]
                        == before.storages.tables@[u],
                forall|p: int| i <= p < n ==> #[trigger] slots@[p] == given[p],
                only_written(&before, self, entity, t, row as int),
                // what has been written, and what has not been touched
                forall|p: int|
                    0 <= p < i && given[p] is Some ==> self.stored_cell(
                        entity,
                        key,
                        t,
                        row as int,
                        #[trigger] bundle[p],
                    ) == Some(
                        (
                            given[p]->0@,
                            ticks_after_write(
                                before.stored_cell(entity, key, t, row as int, bundle[p]),
                                change_tick,
                            ),
                        ),
                    ),
                forall|id: ComponentId|
                    (forall|p: int| 0 <= p < i && given[p] is Some ==> bundle[p] != id)
                        ==> #[trigger] self.stored_cell(entity, key, t, row as int, id)
                        == before.stored_cell(entity, key, t, row as int, id),
            decreases n - i,
        {
            if slots[i].is_some() {
                let value = take_value(slots, i);
                let id = info.components()[i];
                let ghost earlier = *self;
                proof {
                    lemma_identity_slots_dom(
                        key,
                        slots_before(before.archetypes.identities(), b),
                        id.0,
                    );
                    assert(has_component(key, bundle[i as int]));
                    assert(ComponentId(id.0) == id);
                    assert(self.storages.tables@[t].wf());
                    self.storages.tables@[t].lemma_wf();
                    assert(self.storages.tables@[t].has(id.0)
                        <==> self.storages.tables.keys()[t].contains(id));
                    assert(before.storages.tables.keys()[t] == key.0);
                }
                match archetype.get_storage_type(id) {
                    Some(StorageType::Table) => {
                        proof {
                            assert(!key.1.contains(id));
                            assert(key.0.contains(id));
                        }
                        let replaced = self.storages.tables.index_mut(table_id).replace(
                            id,
                            row,
                            value,
                            change_tick,
                        );
                        assert(replaced);
                    },
                    Some(StorageType::SparseSet) => {
                        proof {
                            assert(key.1.contains(id));
                        }
                        self.storages.sparse_sets.insert(id, entity, value, change_tick);
                    },
                    None => {
                        proof {
                            assert(false);
                        }
                    },
                }
                proof {
                    assert(self.storages.tables.wf()) by {
                        assert forall|u: int| 0 <= u < self.storages.tables@.len() implies (
                        #[trigger] self.storages.tables@[u]).wf()
                            && self.storages.tables@[u].column_ids() == distinct_indices(
                            Seq::empty(),
                            self.storages.tables.keys()[u],
                        ) by {
                            assert(earlier.storages.tables@[u].wf());
                        }
                        assert forall|u: int, k: usize|
                            0 <= u < self.storages.tables@.len() implies ((
                        #[trigger] self.storages.tables@[u]).has(k)
                            <==> #[trigger] self.storages.tables.keys()[u].contains(
                            ComponentId(k),
                        )) by {
                            assert(earlier.storages.tables@[u].has(k)
                                <==> earlier.storages.tables.keys()[u].contains(ComponentId(k)));
                        }
                    }
                    assert(only_written(&before, self, entity, t, row as int)) by {
                        assert forall|k: usize, r: int|
                            0 <= r < before.storages.tables@[t]@.len() && r != row
                                && before.storages.tables@[t].has(
                                k,
                            ) implies #[trigger] self.storages.tables@[t].cells_of(k)[r]
                            == before.storages.tables@[t].cells_of(k)[r] by {
                            assert(earlier.storages.tables@[t].cells_of(k)[r]
                                == before.storages.tables@[t].cells_of(k)[r]);
                            assert(before.storages.tables@[t].has(k)
                                <==> before.storages.tables.keys()[t].contains(ComponentId(k)));
                            assert(earlier.storages.tables@[t].has(k)
                                <==> earlier.storages.tables.keys()[t].contains(ComponentId(k)));
                        }
                        assert forall|k: usize, other: Entity|
                            other.index != entity.index implies #[trigger] self.storages.sparse_sets.cell_of(
                            k,
                            other,
                        ) == before.storages.sparse_sets.cell_of(k, other) by {
                            assert(earlier.storages.sparse_sets.cell_of(k, other)
                                == before.storages.sparse_sets.cell_of(k, other));
                        }
                    }
                    assert forall|p: int| 0 <= p < i + 1 && given[p] is Some implies self.stored_cell(
                        entity,
                        key,
                        t,
                        row as int,
                        #[trigger] bundle[p],
                    ) == Some(
                        (
                            given[p]->0@,
                            ticks_after_write(
                                before.stored_cell(entity, key, t, row as int, bundle[p]),
                                change_tick,
                            ),
                        ),
                    ) by {
                        if p < i {
                            assert(bundle[p] != bundle[i as int]);
                            assert(earlier.stored_cell(entity, key, t, row as int, bundle[p])
                                == self.stored_cell(entity, key, t, row as int, bundle[p]));
                        } else {
                            assert(earlier.stored_cell(entity, key, t, row as int, id)
                                == before.stored_cell(entity, key, t, row as int, id));
                        }
                    }
                    assert forall|x: ComponentId|
                        (forall|p: int|
                            0 <= p < i + 1 && given[p] is Some ==> bundle[p]
                                != x) implies #[trigger] self.stored_cell(
                        entity,
                        key,
                        t,
                        row as int,
                        x,
                    ) == before.stored_cell(entity, key, t, row as int, x) by {
                        assert(x != id);
                        assert(earlier.stored_cell(entity, key, t, row as int, x)
                            == self.stored_cell(entity, key, t, row as int, x));
                        assert(forall|p: int| 0 <= p < i && given[p] is Some ==> bundle[p] != x);
                    }
                }
            }
            i += 1;
        }
        proof {
            let after = *self;
            after.lemma_rows_kept(&before);
            assert(after.catalog_kept(&before));
            after.lemma_catalog_kept(&before);
            assert forall|other: Entity, id: ComponentId| other != entity implies #[trigger] after.cell_of(
                other,
                id,
            ) == before.cell_of(other, id) by {
                lemma_written_frame(&before, &after, entity, other, id);
            }
        }
    }
}

impl World {
    /// Inserts the bundle `bundle_id` on `entity`, with `values[i]` for the
    /// `i`-th component of the bundle. An entity that is not live or not
    /// placed is refused and nothing changes.
    ///
    /// The entity moves to the archetype that has the components of its
    /// archetype and those of the bundle, see [`with_bundle`]; that
    /// archetype is found through the cache of edges, see
    /// [`World::add_bundle_target`]. If the entity has all components of
    /// the bundle already, it stays where it is. Values of components that
    /// the entity had are overwritten and keep their added tick; values of
    /// new components are added at `change_tick`. All other values of the
    /// entity stay with it, and the values of all other entities stay with
    /// them. Where only sparse-set components are new, the entity keeps its
    /// table row.
    pub fn insert_bundle(
        &mut self,
        entity: Entity,
        bundle_id: BundleId,
        values: Vec<Vec<u8>>,
        change_tick: u32,
    ) -> (done: bool)
        requires
            old(self).wf(),
            bundle_id.0 < old(self).bundles@.len(),
            values@.len() == old(self).bundles@[bundle_id.0 as int].len(),
            old(self).entities.location_of(entity) matches Some(location)
                ==> (!old(self).archetypes.identities().contains(
                with_bundle(
                    old(self).archetypes.identities()[location.archetype_id.spec_index() as int],
                    old(self).bundles@[bundle_id.0 as int],
                    old(self).components@,
                    old(self).bundles@[bundle_id.0 as int].len() as int,
                ),
            ) ==> old(self).archetypes@.len() < u32::MAX && old(self).archetypes.component_count()
                + old(self).archetypes.identities()[location.archetype_id.spec_index() as int].0.len()
                + old(self).archetypes.identities()[location.archetype_id.spec_index() as int].1.len()
                + old(self).bundles@[bundle_id.0 as int].len() <= u32::MAX),
        ensures
            final(self).wf(),
            done == old(self).entities.location_of(entity) is Some,
            !done ==> *final(self) == *old(self),
            final(self).components == old(self).components,
            final(self).bundles == old(self).bundles,
            final(self).storages.resources == old(self).storages.resources,
            old(self).archetypes.identities().is_prefix_of(final(self).archetypes.identities()),
            old(self).entities.location_of(entity) matches Some(before)
                ==> final(self).entities.location_of(entity) matches Some(after)
                    && final(self).archetypes.identities()[after.archetype_id.spec_index() as int]
                        == with_bundle(
                old(self).archetypes.identities()[before.archetype_id.spec_index() as int],
                old(self).bundles@[bundle_id.0 as int],
                old(self).components@,
                old(self).bundles@[bundle_id.0 as int].len() as int,
            ),
            forall|other: Entity|
                old(self).entities.is_live(other) == #[trigger] final(self).entities.is_live(other),
            old(self).entities.location_of(entity) matches Some(before) ==> {
                let a = before.archetype_id.spec_index() as int;
                let key = old(self).archetypes.identities()[a];
                let bundle = old(self).bundles@[bundle_id.0 as int];
                let target_key = with_bundle(key, bundle, old(self).components@, bundle.len() as int);
                let row = old(self).archetypes@[a]@[before.index as int].table_row as int;
                &&& forall|i: int|
                    0 <= i < bundle.len() ==> final(self).cell_of(entity, #[trigger] bundle[i])
                        == Some(
                        (
                            values@[i]@,
                            ticks_after_write(
                                old(self).stored_cell(
                                    entity,
                                    (key.0, target_key.1),
                                    old(self).table_of(a),
                                    row,
                                    bundle[i],
                                ),
                                change_tick,
                            ),
                        ),
                    )
                &&& forall|id: ComponentId|
                    !bundle.contains(id) ==> #[trigger] final(self).cell_of(entity, id)
                        == old(self).cell_of(entity, id)
            },            forall|other: Entity, id: ComponentId|
                other != entity ==> #[trigger] final(self).cell_of(other, id) == old(self).cell_of(
                    other,
                    id,
                ),
            old(self).entities.location_of(entity) matches Some(before) ==> {
                let key = old(self).archetypes.identities()[before.archetype_id.spec_index() as int];
                let bundle = old(self).bundles@[bundle_id.0 as int];
                let target_key = with_bundle(key, bundle, old(self).components@, bundle.len() as int);
                &&& target_key == key ==> final(self).entities.location_of(entity) == Some(before)
                &&& target_key.0 == key.0 ==> final(self).row_of(entity) == old(self).row_of(entity)
            },
    {
        let location = match self.entities.get(entity) {
            Some(location) => location,
            None => {
                return false;
            },
        };
        let ghost w0 = *old(self);
        let ghost a = location.archetype_id.spec_index() as int;
        let ghost key = w0.archetypes.identities()[a];
        let ghost bundle = w0.bundles@[bundle_id.0 as int];
        let ghost target_key = with_bundle(key, bundle, w0.components@, bundle.len() as int);
        let ghost t0 = w0.table_of(a);
        let ghost row0 = w0.archetypes@[a]@[location.index as int].table_row as int;
        let ghost mixed = (key.0, target_key.1);
        proof {
            assert(w0.location_consistent(entity.index as int));
            assert(w0.entry_consistent(a, location.index as int));
            assert(0 <= w0.table_of(a) < w0.storages.tables@.len());
            w0.bundles.lemma_wf();
        }
        let source = location.archetype_id;
        let target = self.add_bundle_target(source, bundle_id);
        let ghost w1 = *self;
        let ghost b = target.spec_index() as int;
        let ghost t1 = w1.table_of(b);
        proof {
            w1.lemma_cells_kept(&w0);
            assert(w1.archetypes.identities()[a] == key);
            assert(w1.location_consistent(entity.index as int));
            assert(w1.entry_consistent(a, location.index as int));
            lemma_with_bundle(key, bundle, w0.components@, bundle.len() as int);
            assert(bundle.take(bundle.len() as int) =~= bundle);
            assert(0 <= w1.table_of(a) < w1.storages.tables@.len());
            assert(0 <= w1.table_of(b) < w1.storages.tables@.len());
            assert(w1.table_of(a) == t0);
            assert(w1.storages.tables@[t0] == w0.storages.tables@[t0]);
            assert(w1.storages.tables.keys()[t0] == key.0);
            assert(w1.storages.tables.keys()[t1] == target_key.0);
            assert(w1.storages.tables@[t0].wf());
            assert(w1.storages.tables@[t1].wf());
            w1.storages.tables@[t0].lemma_wf();
            w1.storages.tables@[t1].lemma_wf();
            assert(w1.storages.tables.keys().no_duplicates());
        }
        let mut slots = wrap_values(values);
        let ghost wrapped = slots@;
        let ghost mut added_values: Seq<Vec<u8>> = Seq::empty();
        if target.index() != source.index() {
            let source_table = self.archetypes.index(source).table_id();
            let target_table = self.archetypes.index(target).table_id();
            let added = if source_table.0 != target_table.0 {
                let info = match self.bundles.get(bundle_id) {
                    Some(info) => info,
                    None => vstd::pervasive::unreached(),
                };
                let src = self.storages.tables.index(source_table);
                let dst = self.storages.tables.index(target_table);
                proof {
                    // a column that only the new table has is a column of the bundle
                    assert forall|j: int|
                        0 <= j < dst.column_ids().len() && !src.has(
                            #[trigger] dst.column_ids()[j],
                        ) implies bundle.contains(ComponentId(dst.column_ids()[j])) by {
                        let k = dst.column_ids()[j];
                        assert(dst.has(k));
                        assert(target_key.0.contains(ComponentId(k)));
                        assert(!key.0.contains(ComponentId(k)));
                    }
                }
                gather_added(src, dst, info.components(), &mut slots)
            } else {
                Vec::new()
            };
            proof {
                added_values = added@;
            }
            self.move_entity(entity, target, added, change_tick);
        }
        let ghost w2 = *self;
        let ghost taken = slots@;
        proof {
            assert(w2.entities.location_of(entity) is Some);
            assert(w2.location_consistent(entity.index as int));
            let l2 = w2.entities.location_of(entity)->0;
            assert(l2.archetype_id.spec_index() == b);
            assert(w2.archetypes.identities()[b] == target_key);
            assert(w2.entry_consistent(b, l2.index as int));
            assert(w2.table_of(b) == t1);
            lemma_insert_moved(
                &w0,
                &w1,
                &w2,
                entity,
                bundle_id,
                wrapped,
                taken,
                added_values,
                change_tick,
            );
        }
        proof {
            if target_key.0 == key.0 {
                assert(t1 == t0);
                assert(w2.row_of(entity) == w0.row_of(entity));
            }
            if target_key == key {
                assert(a == b);
                assert(w2.entities.location_of(entity) == w0.entities.location_of(entity));
            }
        }
        self.write_values(entity, bundle_id, &mut slots, change_tick);
        proof {
            let w3 = *self;
            assert forall|other: Entity, id: ComponentId| other != entity implies #[trigger] w3.cell_of(
                other,
                id,
            ) == w0.cell_of(other, id) by {
                assert(w1.cell_of(other, id) == w0.cell_of(other, id));
                assert(w2.cell_of(other, id) == w1.cell_of(other, id));
                assert(w3.cell_of(other, id) == w2.cell_of(other, id));
            }
            assert forall|i: int| 0 <= i < bundle.len() implies w3.cell_of(
                entity,
                #[trigger] bundle[i],
            ) == Some(
                (
                    values@[i]@,
                    ticks_after_write(
                        w0.stored_cell(entity, mixed, t0, row0, bundle[i]),
                        change_tick,
                    ),
                ),
            ) by {
                assert(wrapped[i] == Some(values@[i]));
                if taken[i] is None {
                    assert(forall|p: int|
                        0 <= p < taken.len() && taken[p] is Some ==> w2.bundles@[bundle_id.0 as int][p]
                            != bundle[i]) by {
                        assert forall|p: int| 0 <= p < taken.len()
                            && taken[p] is Some implies w2.bundles@[bundle_id.0 as int][p]
                            != bundle[i] by {
                            assert(bundle[p] != bundle[i]);
                        }
                    }
                }
            }
            assert forall|id: ComponentId| !bundle.contains(id) implies #[trigger] w3.cell_of(
                entity,
                id,
            ) == w0.cell_of(entity, id) by {
                assert forall|p: int| 0 <= p < taken.len()
                    && taken[p] is Some implies w2.bundles@[bundle_id.0 as int][p]
                    != id by {
                    assert(bundle.contains(bundle[p]));
                }
            }
        }
        true
    }
}

/// What the move of an entity to the archetype of an inserted bundle has
/// done to the values of the entity, before the remaining values are
/// written: values of components that the entity had are still with it,
/// values of new table components have been filled in by the move, and the
/// slots of those are empty.
proof fn lemma_insert_moved(
    w0: &World,
    w1: &World,
    w2: &World,
    entity: Entity,
    bundle_id: BundleId,
    wrapped: Seq<Option<Vec<u8>>>,
    taken: Seq<Option<Vec<u8>>>,
    added: Seq<Vec<u8>>,
    change_tick: u32,
)
    requires
        w0.wf(),
        w1.wf(),
        w2.wf(),
        bundle_id.0 < w0.bundles@.len(),
        w0.entities.location_of(entity) is Some,
        w2.entities.location_of(entity) is Some,
        ({
            let location = w0.entities.location_of(entity)->0;
            let a = location.archetype_id.spec_index() as int;
            let key = w0.archetypes.identities()[a];
            let bundle = w0.bundles@[bundle_id.0 as int];
            let target_key = with_bundle(key, bundle, w0.components@, bundle.len() as int);
            let t0 = w0.table_of(a);
            let row0 = w0.archetypes@[a]@[location.index as int].table_row as int;
            let l2 = w2.entities.location_of(entity)->0;
            let b = l2.archetype_id.spec_index() as int;
            let t1 = w1.table_of(b);
            &&& 0 <= a < w0.archetypes@.len()
            &&& 0 <= b < w1.archetypes@.len()
            &&& w1.archetypes@.len() == w2.archetypes@.len()
            &&& w1.entities == w0.entities
            &&& w1.bundles == w0.bundles
            &&& w2.bundles == w0.bundles
            &&& w1.storages.sparse_sets == w0.storages.sparse_sets
            &&& w2.storages.sparse_sets == w0.storages.sparse_sets
            &&& w1.archetypes.identities()[a] == key
            &&& w1.archetypes.identities()[b] == target_key
            &&& w2.archetypes.identities()[b] == target_key
            &&& w1.table_of(a) == t0
            &&& w2.table_of(b) == t1
            &&& w1.archetypes@[a]@ == w0.archetypes@[a]@
            &&& w1.storages.tables@[t0] == w0.storages.tables@[t0]
            &&& bundle.no_duplicates()
            &&& wrapped.len() == bundle.len()
            &&& taken.len() == bundle.len()
            &&& forall|i: int| 0 <= i < bundle.len() ==> (#[trigger] wrapped[i]) is Some
            // nothing has moved: the entity has all components of the bundle
            &&& b == a ==> *w2 == *w1 && taken == wrapped
            // the entity has moved within its table
            &&& b != a && t1 == t0 ==> taken == wrapped && w2.storages.tables@ == w1.storages.tables@
                && moved_to(w1, w2, entity, a, location.index as int, b)
            // the entity has moved to another table
            &&& b != a && t1 != t0 ==> {
                let src = w1.storages.tables@[t0];
                let dst = w1.storages.tables@[t1];
                &&& moved_to(w1, w2, entity, a, location.index as int, b)
                &&& forall|j: int|
                    0 <= j < dst.column_cells().len() ==> #[trigger] w2.storages.tables@[t1].column_cells()[j]
                        == dst.column_cells()[j].push(
                        moved_cell(&src, dst.column_ids(), added, row0, j, change_tick),
                    )
                &&& forall|i: int|
                    0 <= i < bundle.len() ==> #[trigger] taken[i] == if dst.has(bundle[i].0)
                        && !src.has(bundle[i].0) {
                        None
                    } else {
                        wrapped[i]
                    }
                &&& forall|j: int, i: int|
                    0 <= j < dst.column_ids().len() && 0 <= i < bundle.len() && (
                    #[trigger] bundle[i]).0 == #[trigger] dst.column_ids()[j] && !src.has(
                        dst.column_ids()[j],
                    ) ==> Some(added[missing_before(&src, dst.column_ids(), j) as int])
                        == wrapped[i]
            }
        }),
    ensures
        ({
            let location = w0.entities.location_of(entity)->0;
            let a = location.archetype_id.spec_index() as int;
            let key = w0.archetypes.identities()[a];
            let bundle = w0.bundles@[bundle_id.0 as int];
            let target_key = with_bundle(key, bundle, w0.components@, bundle.len() as int);
            let t0 = w0.table_of(a);
            let row0 = w0.archetypes@[a]@[location.index as int].table_row as int;
            let mixed = (key.0, target_key.1);
            &&& forall|i: int|
                0 <= i < bundle.len() ==> has_component(target_key, #[trigger] bundle[i])
            &&& forall|i: int|
                0 <= i < bundle.len() && taken[i] is Some ==> taken[i] == wrapped[i] && w2.cell_of(
                    entity,
                    #[trigger] bundle[i],
                ) == w0.stored_cell(entity, mixed, t0, row0, bundle[i])
            &&& forall|i: int|
                0 <= i < bundle.len() && taken[i] is None ==> w0.stored_cell(
                    entity,
                    mixed,
                    t0,
                    row0,
                    #[trigger] bundle[i],
                ) is None && w2.cell_of(entity, bundle[i]) == Some(
                    (
                        wrapped[i]->0@,
                        ComponentTicks {
                            added: Tick { tick: change_tick },
                            changed: Tick { tick: change_tick },
                        },
                    ),
                )
            &&& forall|id: ComponentId|
                !bundle.contains(id) ==> #[trigger] w2.cell_of(entity, id) == w0.cell_of(entity, id)
        }),
{
    let location = w0.entities.location_of(entity)->0;
    let a = location.archetype_id.spec_index() as int;
    let key = w0.archetypes.identities()[a];
    let bundle = w0.bundles@[bundle_id.0 as int];
    let target_key = with_bundle(key, bundle, w0.components@, bundle.len() as int);
    let t0 = w0.table_of(a);
    let row0 = w0.archetypes@[a]@[location.index as int].table_row as int;
    let mixed = (key.0, target_key.1);
    let l2 = w2.entities.location_of(entity)->0;
    let b = l2.archetype_id.spec_index() as int;
    let t1 = w1.table_of(b);
    let row2 = w2.archetypes@[b]@[l2.index as int].table_row as int;
    lemma_with_bundle(key, bundle, w0.components@, bundle.len() as int);
    assert(bundle.take(bundle.len() as int) =~= bundle);
    assert(w0.location_consistent(entity.index as int));
    assert(w1.location_consistent(entity.index as int));
    assert(w2.location_consistent(entity.index as int));
    assert(w0.entry_consistent(a, location.index as int));
    assert(w1.entry_consistent(a, location.index as int));
    assert(w2.entry_consistent(b, l2.index as int));
    assert(0 <= w1.table_of(a) < w1.storages.tables@.len());
    assert(0 <= w1.table_of(b) < w1.storages.tables@.len());
    assert(0 <= w2.table_of(b) < w2.storages.tables@.len());
    assert(w1.storages.tables.keys()[t0] == key.0);
    assert(w1.storages.tables.keys()[t1] == target_key.0);
    assert(w1.storages.tables.keys().no_duplicates());
    let src = w1.storages.tables@[t0];
    let dst = w1.storages.tables@[t1];
    assert(src.wf() && dst.wf() && w2.storages.tables@[t1].wf());
    src.lemma_wf();
    dst.lemma_wf();
    w2.storages.tables@[t1].lemma_wf();
    assert forall|k: usize| src.has(k) <==> key.0.contains(ComponentId(k)) by {}
    assert forall|k: usize| dst.has(k) <==> target_key.0.contains(ComponentId(k)) by {}
    assert forall|i: int| 0 <= i < bundle.len() implies has_component(
        target_key,
        #[trigger] bundle[i],
    ) by {
        assert(bundle.contains(bundle[i]));
    }
    // the cell of a table component in the row that the entity has now
    assert forall|id: ComponentId|
        target_key.0.contains(id) && !target_key.1.contains(id) implies #[trigger] w2.stored_cell(
        entity,
        target_key,
        t1,
        row2,
        id,
    ) == Some(
        if key.0.contains(id) {
            w0.storages.tables@[t0].cells_of(id.0)[row0]
        } else {
            let i = bundle.index_of(id);
            (
                wrapped[i]->0@,
                ComponentTicks {
                    added: Tick { tick: change_tick },
                    changed: Tick { tick: change_tick },
                },
            )
        },
    ) && (!key.0.contains(id) ==> bundle.contains(id) && taken[bundle.index_of(id)] is None) by {
        assert(ComponentId(id.0) == id);
        if b == a {
            assert(target_key == key);
        } else if t1 == t0 {
            assert(target_key.0 == key.0);
            assert(row2 == row0);
        } else {
            assert(dst.has(id.0));
            let j = choose|j: int| 0 <= j < dst.column_ids().len() && dst.column_ids()[j] == id.0;
            assert(w2.storages.tables@[t1].column_cells()[j] == dst.column_cells()[j].push(
                moved_cell(&src, dst.column_ids(), added, row0, j, change_tick),
            ));
            assert(w2.storages.tables@[t1].cells_of(id.0) == w2.storages.tables@[t1].column_cells()[j]);
            assert(dst.cells_of(id.0) == dst.column_cells()[j]);
            assert(row2 == dst@.len());
            if !key.0.contains(id) {
                assert(bundle.contains(id));
                let i = bundle.index_of(id);
                assert(bundle[i] == id);
                assert(bundle[i].0 == dst.column_ids()[j]);
                assert(Some(added[missing_before(&src, dst.column_ids(), j) as int]) == wrapped[i]);
            }
        }
    }
    assert forall|i: int| 0 <= i < bundle.len() && taken[i] is Some implies taken[i]
        == wrapped[i] && w2.cell_of(entity, #[trigger] bundle[i]) == w0.stored_cell(
        entity,
        mixed,
        t0,
        row0,
        bundle[i],
    ) by {
        let id = bundle[i];
        assert(has_component(target_key, id));
        if !target_key.1.contains(id) {
            if !key.0.contains(id) {
                assert(bundle.index_of(id) == i);
            }
        }
    }
    assert forall|i: int| 0 <= i < bundle.len() && taken[i] is None implies w0.stored_cell(
        entity,
        mixed,
        t0,
        row0,
        #[trigger] bundle[i],
    ) is None && w2.cell_of(entity, bundle[i]) == Some(
        (
            wrapped[i]->0@,
            ComponentTicks { added: Tick { tick: change_tick }, changed: Tick { tick: change_tick } },
        ),
    ) by {
        let id = bundle[i];
        assert(ComponentId(id.0) == id);
        assert(b != a && t1 != t0);
        assert(dst.has(id.0) && !src.has(id.0));
        assert(bundle.contains(id));
        assert(bundle.index_of(id) == i);
        assert(!has_component(key, id));
    }
    assert forall|id: ComponentId| !bundle.contains(id) implies #[trigger] w2.cell_of(entity, id)
        == w0.cell_of(entity, id) by {
        assert(target_key.1.contains(id) <==> key.1.contains(id));
        assert(target_key.0.contains(id) <==> key.0.contains(id));
    }
}

impl World {
    /// Registers the bundle and inserts it: a shorthand for tests and
    /// callers that use a bundle once.
    pub fn insert_components(
        &mut self,
        entity: Entity,
        component_ids: Vec<ComponentId>,
        values: Vec<Vec<u8>>,
        change_tick: u32,
    ) -> (r: Option<BundleId>)
        requires
            old(self).wf(),
            component_ids@.no_duplicates(),
            values@.len() == component_ids@.len(),
            forall|i: int|
                0 <= i < component_ids@.len() ==> (#[trigger] component_ids@[i]).0
                    < old(self).components@.len(),
            old(self).entities.location_of(entity) matches Some(location) ==> {
                let key = old(self).archetypes.identities()[location.archetype_id.spec_index() as int];
                old(self).archetypes@.len() < u32::MAX && old(self).archetypes.component_count()
                    + key.0.len() + key.1.len() + component_ids@.len() <= u32::MAX
            },
        ensures
            final(self).wf(),
            r is Some == old(self).entities.location_of(entity) is Some,
            r is None ==> *final(self) == *old(self),
            r matches Some(id) ==> id.0 == old(self).bundles@.len() && final(self).bundles@
                == old(self).bundles@.push(component_ids@),
    {
        if self.entities.get(entity).is_none() {
            return None;
        }
        let id = self.init_bundle(component_ids);
        self.insert_bundle(entity, id, values, change_tick);
        Some(id)
    }
}

} // verus!
