//! The world: entities, archetypes and storage, and the structural changes
//! that keep them in step.

pub mod despawn;
pub mod insert;
pub mod moves;
pub mod query;
pub mod remove;
pub mod spawn;
pub mod ticks;

use crate::archetype::{
    inserted, lemma_inserted, lemma_sorted_set, lemma_without, sorted_set, strictly_sorted,
    without, AddBundle, ArchetypeEntity, ArchetypeId, Archetypes, ComponentStatus, IdentityKey,
};
use crate::bundle::Bundles;
use crate::component::{ComponentId, ComponentInfo, Components, StorageType};
use crate::entity::{Entities, Entity};
use crate::query::filter::QueryFilter;
use crate::query::iter::locations_valid;
use crate::query::state::{table_backed, QueryState};
use crate::storage::column::CellView;
use crate::storage::resource::Resources;
use crate::storage::sparse_components::{ComponentSparseSet, SparseSets};
use crate::storage::table::Tables;
use vstd::prelude::*;

verus! {

/// The component storage of a world.
pub struct Storages {
    pub tables: Tables,
    pub sparse_sets: SparseSets,
    pub resources: Resources,
}

/// A world: its registries of components and bundles, its entities, its
/// archetypes and its storage.
pub struct World {
    pub components: Components,
    pub bundles: Bundles,
    pub entities: Entities,
    pub archetypes: Archetypes,
    pub storages: Storages,
}

/// Whether an archetype with the identity `key` has the component `id`.
pub open spec fn has_component(key: IdentityKey, id: ComponentId) -> bool {
    key.0.contains(id) || key.1.contains(id)
}

/// Whether every component of `ids` is registered with the storage type
/// `storage`.
pub open spec fn registered_as(
    ids: Seq<ComponentId>,
    components: Seq<ComponentInfo>,
    storage: StorageType,
) -> bool {
    forall|i: int|
        0 <= i < ids.len() ==> (#[trigger] ids[i]).0 < components.len()
            && components[ids[i].0 as int].storage_type == storage
}

/// Whether an archetype with the identity `key` files its components as
/// they are registered: table components in its table, sparse-set
/// components in sparse sets.
pub open spec fn filed_as_registered(key: IdentityKey, components: Seq<ComponentInfo>) -> bool {
    &&& registered_as(key.0, components, StorageType::Table)
    &&& registered_as(key.1, components, StorageType::SparseSet)
}

/// The identity of the archetype that an entity of the archetype `key`
/// moves to when the first `n` components of `bundle` are added to it: each
/// component that is new to the archetype is put into the list that its
/// registered storage type calls for.
pub open spec fn with_bundle(
    key: IdentityKey,
    bundle: Seq<ComponentId>,
    components: Seq<ComponentInfo>,
    n: int,
) -> IdentityKey
    decreases n,
{
    if n <= 0 {
        key
    } else {
        let before = with_bundle(key, bundle, components, n - 1);
        let id = bundle[n - 1];
        if has_component(before, id) {
            before
        } else if components[id.0 as int].storage_type == StorageType::Table {
            (inserted(before.0, id), before.1)
        } else {
            (before.0, inserted(before.1, id))
        }
    }
}

/// The identity of the archetype that an entity of the archetype `key`
/// moves to when the first `n` components of `bundle` are removed from it.
/// Components that the archetype does not have are passed over.
pub open spec fn without_bundle(key: IdentityKey, bundle: Seq<ComponentId>, n: int) -> IdentityKey
    decreases n,
{
    if n <= 0 {
        key
    } else {
        let before = without_bundle(key, bundle, n - 1);
        (without(before.0, bundle[n - 1]), without(before.1, bundle[n - 1]))
    }
}

/// For each component of `bundle`, whether it is new to the archetype `key`
/// or overwrites a value.
pub open spec fn bundle_statuses(key: IdentityKey, bundle: Seq<ComponentId>) -> Seq<ComponentStatus> {
    Seq::new(
        bundle.len(),
        |i: int|
            if has_component(key, bundle[i]) {
                ComponentStatus::Mutated
            } else {
                ComponentStatus::Added
            },
    )
}

/// A list whose components are all found in a list of components that are
/// registered with one storage type is registered with it too.
pub proof fn lemma_registered_subset(
    part: Seq<ComponentId>,
    whole: Seq<ComponentId>,
    extra: ComponentId,
    components: Seq<ComponentInfo>,
    storage: StorageType,
)
    requires
        registered_as(whole, components, storage),
        forall|x: ComponentId| part.contains(x) ==> whole.contains(x) || x == extra,
        part.contains(extra) ==> extra.0 < components.len() && components[extra.0 as int].storage_type
            == storage,
    ensures
        registered_as(part, components, storage),
{
    assert forall|i: int| 0 <= i < part.len() implies (#[trigger] part[i]).0 < components.len()
        && components[part[i].0 as int].storage_type == storage by {
        assert(part.contains(part[i]));
        if whole.contains(part[i]) {
            let j = choose|j: int| 0 <= j < whole.len() && whole[j] == part[i];
            assert(whole[j].0 < components.len());
        }
    }
}

/// Adding the registered components of a bundle to an archetype that files
/// its components as they are registered leads to such an archetype.
pub proof fn lemma_with_bundle_filed(
    key: IdentityKey,
    bundle: Seq<ComponentId>,
    components: Seq<ComponentInfo>,
    n: int,
)
    requires
        0 <= n <= bundle.len(),
        filed_as_registered(key, components),
        forall|i: int| 0 <= i < n ==> (#[trigger] bundle[i]).0 < components.len(),
    ensures
        filed_as_registered(with_bundle(key, bundle, components, n), components),
    decreases n,
{
    if n > 0 {
        let before = with_bundle(key, bundle, components, n - 1);
        let id = bundle[n - 1];
        lemma_with_bundle_filed(key, bundle, components, n - 1);
        lemma_inserted(before.0, id);
        lemma_inserted(before.1, id);
        if has_component(before, id) {
        } else if components[id.0 as int].storage_type == StorageType::Table {
            lemma_registered_subset(
                inserted(before.0, id),
                before.0,
                id,
                components,
                StorageType::Table,
            );
        } else {
            lemma_registered_subset(
                inserted(before.1, id),
                before.1,
                id,
                components,
                StorageType::SparseSet,
            );
        }
    }
}

/// The sorted form of a list of components that are registered with one
/// storage type is registered with it too.
pub proof fn lemma_sorted_set_registered(
    ids: Seq<ComponentId>,
    components: Seq<ComponentInfo>,
    storage: StorageType,
)
    requires
        registered_as(ids, components, storage),
    ensures
        registered_as(sorted_set(ids), components, storage),
{
    lemma_sorted_set(ids);
    let sorted = sorted_set(ids);
    assert forall|i: int| 0 <= i < sorted.len() implies (#[trigger] sorted[i]).0 < components.len()
        && components[sorted[i].0 as int].storage_type == storage by {
        assert(sorted.contains(sorted[i]));
        assert(ids.contains(sorted[i]));
        let j = choose|j: int| 0 <= j < ids.len() && ids[j] == sorted[i];
        assert(ids[j].0 < components.len());
    }
}

/// Adding the components of a bundle to an archetype with sorted lists
/// leads to an archetype with sorted lists.
pub proof fn lemma_with_bundle_sorted(
    key: IdentityKey,
    bundle: Seq<ComponentId>,
    components: Seq<ComponentInfo>,
    n: int,
)
    requires
        0 <= n <= bundle.len(),
        strictly_sorted(key.0),
        strictly_sorted(key.1),
    ensures
        strictly_sorted(with_bundle(key, bundle, components, n).0),
        strictly_sorted(with_bundle(key, bundle, components, n).1),
    decreases n,
{
    if n > 0 {
        let before = with_bundle(key, bundle, components, n - 1);
        lemma_with_bundle_sorted(key, bundle, components, n - 1);
        lemma_inserted(before.0, bundle[n - 1]);
        lemma_inserted(before.1, bundle[n - 1]);
    }
}

/// Removing components from an archetype with sorted lists leads to an
/// archetype with sorted lists.
pub proof fn lemma_without_bundle_sorted(key: IdentityKey, bundle: Seq<ComponentId>, n: int)
    requires
        0 <= n <= bundle.len(),
        strictly_sorted(key.0),
        strictly_sorted(key.1),
    ensures
        strictly_sorted(without_bundle(key, bundle, n).0),
        strictly_sorted(without_bundle(key, bundle, n).1),
    decreases n,
{
    if n > 0 {
        let before = without_bundle(key, bundle, n - 1);
        lemma_without_bundle_sorted(key, bundle, n - 1);
        lemma_without(before.0, bundle[n - 1]);
        lemma_without(before.1, bundle[n - 1]);
    }
}

/// Removing components from an archetype that files its components as
/// they are registered leads to such an archetype.
pub proof fn lemma_without_bundle_filed(
    key: IdentityKey,
    bundle: Seq<ComponentId>,
    components: Seq<ComponentInfo>,
    n: int,
)
    requires
        0 <= n <= bundle.len(),
        filed_as_registered(key, components),
    ensures
        filed_as_registered(without_bundle(key, bundle, n), components),
    decreases n,
{
    if n > 0 {
        let before = without_bundle(key, bundle, n - 1);
        let id = bundle[n - 1];
        lemma_without_bundle_filed(key, bundle, components, n - 1);
        lemma_without(before.0, id);
        lemma_without(before.1, id);
        lemma_registered_subset(without(before.0, id), before.0, id, components, StorageType::Table);
        lemma_registered_subset(
            without(before.1, id),
            before.1,
            id,
            components,
            StorageType::SparseSet,
        );
    }
}

impl World {
    /// The table of archetype `a`.
    pub open spec fn table_of(&self, a: int) -> int {
        self.archetypes@[a].spec_table_id().0 as int
    }

    /// Entity number `i` of archetype `a` is recorded at that place, and its
    /// table row exists and belongs to it.
    pub open spec fn entry_consistent(&self, a: int, i: int) -> bool {
        let entry = self.archetypes@[a]@[i];
        &&& self.entities.location_of(entry.entity) matches Some(location)
            && location.archetype_id.spec_index() == a && location.index == i
        &&& entry.table_row < self.storages.tables@[self.table_of(a)]@.len()
        &&& self.storages.tables@[self.table_of(a)]@[entry.table_row as int] == entry.entity
    }

    /// Row `r` of table `t` belongs to an entity that is recorded in an
    /// archetype of that table, with that row.
    pub open spec fn row_consistent(&self, t: int, r: int) -> bool {
        let entity = self.storages.tables@[t]@[r];
        &&& self.entities.location_of(entity) matches Some(location) && {
            let a = location.archetype_id.spec_index() as int;
            &&& a < self.archetypes@.len()
            &&& self.table_of(a) == t
            &&& location.index < self.archetypes@[a]@.len()
            &&& self.archetypes@[a]@[location.index as int].entity == entity
            &&& self.archetypes@[a]@[location.index as int].table_row == r
        }
    }

    /// The location that slot `slot` records, if it records one, names an
    /// entry of an archetype that holds the entity of the slot.
    pub open spec fn location_consistent(&self, slot: int) -> bool {
        let meta = self.entities@[slot];
        meta.live && meta.location is Some ==> {
            let location = meta.location->0;
            let a = location.archetype_id.spec_index() as int;
            &&& a < self.archetypes@.len()
            &&& location.index < self.archetypes@[a]@.len()
            &&& self.archetypes@[a]@[location.index as int].entity == (Entity {
                index: slot as u32,
                generation: meta.generation,
            })
        }
    }

    /// Entities, archetypes and tables are in step: each is well-formed,
    /// every archetype has the table that is registered for its table
    /// components, and entity locations, archetype entries and table rows
    /// name each other.
    pub open spec fn rows_wf(&self) -> bool {
        &&& self.entities.wf()
        &&& self.archetypes.wf()
        &&& self.storages.tables.wf()
        &&& forall|a: int|
            0 <= a < self.archetypes@.len() ==> 0 <= #[trigger] self.table_of(a)
                < self.storages.tables@.len() && self.storages.tables.keys()[self.table_of(a)]
                == self.archetypes.identities()[a].0
        &&& forall|a: int, i: int|
            0 <= a < self.archetypes@.len() && 0 <= i < self.archetypes@[a]@.len()
                ==> #[trigger] self.entry_consistent(a, i)
        &&& forall|t: int, r: int|
            0 <= t < self.storages.tables@.len() && 0 <= r < self.storages.tables@[t]@.len()
                ==> #[trigger] self.row_consistent(t, r)
        &&& forall|slot: int|
            0 <= slot < self.entities@.len() ==> #[trigger] self.location_consistent(slot)
    }

    /// The cached edge of archetype `a` for adding the bundle `b` leads to
    /// the archetype that the bundle's components call for, and tells for
    /// each of them whether it is new.
    pub open spec fn add_edge_valid(&self, a: int, b: usize) -> bool {
        let edge = self.archetypes@[a].spec_edges().add_edges()[b];
        let to = edge.archetype_id.spec_index() as int;
        &&& b < self.bundles@.len()
        &&& to < self.archetypes@.len()
        &&& self.archetypes.identities()[to] == with_bundle(
            self.archetypes.identities()[a],
            self.bundles@[b as int],
            self.components@,
            self.bundles@[b as int].len() as int,
        )
        &&& edge.bundle_status@ == bundle_statuses(
            self.archetypes.identities()[a],
            self.bundles@[b as int],
        )
    }

    /// The cached edge of archetype `a` for removing what it has of the
    /// bundle `b` leads to the archetype without those components.
    pub open spec fn remove_edge_valid(&self, a: int, b: usize) -> bool {
        let edge = self.archetypes@[a].spec_edges().remove_intersection_edges()[b];
        &&& b < self.bundles@.len()
        &&& edge matches Some(to) && to.spec_index() < self.archetypes@.len()
            && self.archetypes.identities()[to.spec_index() as int] == without_bundle(
            self.archetypes.identities()[a],
            self.bundles@[b as int],
            self.bundles@[b as int].len() as int,
        )
    }

    /// The registries are well-formed, every component of a bundle is
    /// registered, and the cached edges of all archetypes are up to date.
    pub open spec fn catalog_wf(&self) -> bool {
        &&& self.components.wf()
        &&& self.bundles.wf()
        &&& self.storages.sparse_sets.wf()
        &&& forall|b: int, i: int|
            0 <= b < self.bundles@.len() && 0 <= i < self.bundles@[b].len() ==> (
            #[trigger] self.bundles@[b][i]).0 < self.components@.len()
        &&& forall|a: int, b: usize|
            0 <= a < self.archetypes@.len() && self.archetypes@[a].spec_edges().add_edges().contains_key(
                b,
            ) ==> #[trigger] self.add_edge_valid(a, b)
        &&& forall|a: int, b: usize|
            0 <= a < self.archetypes@.len()
                && self.archetypes@[a].spec_edges().remove_intersection_edges().contains_key(b)
                ==> #[trigger] self.remove_edge_valid(a, b)
    }

    /// The cell that is stored for `entity` and the component `id`, for an
    /// entity of an archetype with the identity `key` that sits in row `row`
    /// of table `t`: in the sparse set of `id` if `id` is a sparse-set
    /// component of the archetype, in the column of `id` if it is a table
    /// component, and none otherwise.
    pub open spec fn stored_cell(
        &self,
        entity: Entity,
        key: IdentityKey,
        t: int,
        row: int,
        id: ComponentId,
    ) -> Option<CellView> {
        if key.1.contains(id) {
            if self.storages.sparse_sets@.contains_key(id.0) {
                self.storages.sparse_sets@[id.0].cell_of(entity)
            } else {
                None
            }
        } else if key.0.contains(id) {
            Some(self.storages.tables@[t].cells_of(id.0)[row])
        } else {
            None
        }
    }

    /// The table and the row in which the table components of `entity` are
    /// stored. `None` if the entity is not placed.
    pub open spec fn row_of(&self, entity: Entity) -> Option<(int, int)> {
        match self.entities.location_of(entity) {
            Some(location) => {
                let a = location.archetype_id.spec_index() as int;
                Some((self.table_of(a), self.archetypes@[a]@[location.index as int].table_row as int))
            },
            None => None,
        }
    }

    /// The cell that `entity` has for the component `id`, see
    /// [`World::stored_cell`]. `None` if the entity is not placed or does
    /// not have the component.
    pub open spec fn cell_of(&self, entity: Entity, id: ComponentId) -> Option<CellView> {
        match self.entities.location_of(entity) {
            Some(location) => {
                let a = location.archetype_id.spec_index() as int;
                self.stored_cell(
                    entity,
                    self.archetypes.identities()[a],
                    self.table_of(a),
                    self.archetypes@[a]@[location.index as int].table_row as int,
                    id,
                )
            },
            None => None,
        }
    }

    /// The storage type of a component is the same in all archetypes: the
    /// one it is registered with.
    pub open spec fn filing_wf(&self) -> bool {
        forall|a: int|
            0 <= a < self.archetypes.identities().len() ==> filed_as_registered(
                #[trigger] self.archetypes.identities()[a],
                self.components@,
            )
    }

    /// Every archetype is identified by its components in increasing
    /// order, each named once.
    pub open spec fn sorted_wf(&self) -> bool {
        forall|a: int|
            0 <= a < self.archetypes.identities().len() ==> strictly_sorted(
                (#[trigger] self.archetypes.identities()[a]).0,
            ) && strictly_sorted(self.archetypes.identities()[a].1)
    }

    /// Registries, entities, archetypes and storage are in step.
    pub open spec fn wf(&self) -> bool {
        self.rows_wf() && self.catalog_wf() && self.storages.resources.wf() && self.filing_wf()
            && self.sorted_wf()
    }

    /// The registries and the cached edges are as in `before`: nothing was
    /// registered, archetypes were only added, and only without edges. The
    /// sparse sets are well-formed.
    pub open spec fn catalog_kept(&self, before: &World) -> bool {
        &&& self.components == before.components
        &&& self.bundles == before.bundles
        &&& self.storages.sparse_sets.wf()
        &&& before.archetypes.identities().is_prefix_of(self.archetypes.identities())
        &&& self.archetypes.identities().len() == self.archetypes@.len()
        &&& before.archetypes@.len() <= self.archetypes@.len()
        &&& forall|a: int|
            0 <= a < before.archetypes@.len() ==> (#[trigger] self.archetypes@[a]).spec_edges()
                == before.archetypes@[a].spec_edges()
        &&& forall|a: int|
            before.archetypes@.len() <= a < self.archetypes@.len() ==> (
            #[trigger] self.archetypes@[a]).spec_edges().add_edges() == Map::<
                usize,
                AddBundle,
            >::empty() && self.archetypes@[a].spec_edges().remove_intersection_edges() == Map::<
                usize,
                Option<ArchetypeId>,
            >::empty()
    }

    /// A world that has kept its catalog has a well-formed catalog.
    pub proof fn lemma_catalog_kept(&self, before: &World)
        requires
            before.catalog_wf(),
            before.archetypes.identities().len() == before.archetypes@.len(),
            self.catalog_kept(before),
        ensures
            self.catalog_wf(),
    {
        assert forall|a: int, b: usize|
            0 <= a < self.archetypes@.len() && self.archetypes@[a].spec_edges().add_edges().contains_key(
                b,
            ) implies #[trigger] self.add_edge_valid(a, b) by {
            assert(a < before.archetypes@.len());
            assert(before.add_edge_valid(a, b));
            let to = before.archetypes@[a].spec_edges().add_edges()[b].archetype_id.spec_index() as int;
            assert(self.archetypes.identities()[to] == before.archetypes.identities()[to]);
            assert(self.archetypes.identities()[a] == before.archetypes.identities()[a]);
        }
        assert forall|a: int, b: usize|
            0 <= a < self.archetypes@.len()
                && self.archetypes@[a].spec_edges().remove_intersection_edges().contains_key(
                b,
            ) implies #[trigger] self.remove_edge_valid(a, b) by {
            assert(a < before.archetypes@.len());
            assert(before.remove_edge_valid(a, b));
            let to = before.archetypes@[a].spec_edges().remove_intersection_edges()[b]->0.spec_index() as int;
            assert(self.archetypes.identities()[to] == before.archetypes.identities()[to]);
            assert(self.archetypes.identities()[a] == before.archetypes.identities()[a]);
        }
    }

    /// A world that has only gained archetypes and tables holds the same
    /// values for every entity.
    pub proof fn lemma_cells_kept(&self, before: &World)
        requires
            before.rows_wf(),
            self.entities == before.entities,
            self.storages.sparse_sets == before.storages.sparse_sets,
            before.archetypes.identities().is_prefix_of(self.archetypes.identities()),
            forall|a: int|
                0 <= a < before.archetypes@.len() ==> (#[trigger] self.archetypes@[a])@
                    == before.archetypes@[a]@ && self.table_of(a) == before.table_of(a),
            forall|t: int|
                0 <= t < before.storages.tables@.len() ==> #[trigger] self.storages.tables@[t]
                    == before.storages.tables@[t],
        ensures
            forall|entity: Entity, id: ComponentId| #[trigger]
                self.cell_of(entity, id) == before.cell_of(entity, id),
    {
        assert forall|entity: Entity, id: ComponentId| #[trigger]
            self.cell_of(entity, id) == before.cell_of(entity, id) by {
            if before.entities.location_of(entity) is Some {
                let location = before.entities.location_of(entity)->0;
                let a = location.archetype_id.spec_index() as int;
                assert(before.location_consistent(entity.index as int));
                assert(0 <= before.table_of(a) < before.storages.tables@.len());
                assert(self.archetypes@[a]@ == before.archetypes@[a]@);
                assert(self.archetypes.identities()[a] == before.archetypes.identities()[a]);
            }
        }
    }

    /// A world in which only values have changed, and no entity list, is
    /// still in step.
    pub proof fn lemma_rows_kept(&self, before: &World)
        requires
            before.rows_wf(),
            self.entities == before.entities,
            self.archetypes == before.archetypes,
            self.storages.tables.wf(),
            self.storages.tables.keys() == before.storages.tables.keys(),
            self.storages.tables@.len() == before.storages.tables@.len(),
            forall|t: int|
                0 <= t < before.storages.tables@.len() ==> (#[trigger] self.storages.tables@[t])@
                    == before.storages.tables@[t]@,
        ensures
            self.rows_wf(),
    {
        assert forall|a: int| 0 <= a < self.archetypes@.len() implies 0 <= #[trigger] self.table_of(
            a,
        ) < self.storages.tables@.len() && self.storages.tables.keys()[self.table_of(a)]
            == self.archetypes.identities()[a].0 by {
            assert(0 <= before.table_of(a) < before.storages.tables@.len());
        }
        assert forall|a: int, i: int|
            0 <= a < self.archetypes@.len() && 0 <= i
                < self.archetypes@[a]@.len() implies #[trigger] self.entry_consistent(a, i) by {
            assert(before.entry_consistent(a, i));
            assert(0 <= before.table_of(a) < before.storages.tables@.len());
        }
        assert forall|t: int, r: int|
            0 <= t < self.storages.tables@.len() && 0 <= r
                < self.storages.tables@[t]@.len() implies #[trigger] self.row_consistent(t, r) by {
            assert(before.row_consistent(t, r));
        }
        assert forall|slot: int| 0 <= slot < self.entities@.len() implies #[trigger] self.location_consistent(
            slot,
        ) by {
            assert(before.location_consistent(slot));
        }
    }

    /// A world without entities: it has the empty archetype and the empty
    /// table, and nothing else. The empty archetype has no edges yet, and
    /// no slot waits to be handed out again.
    pub fn new() -> (w: Self)
        ensures
            w.wf(),
            w.entities@.len() == 0,
            w.entities.free_slots().len() == 0,
            w.archetypes@.len() == 1,
            w.archetypes.identities() == seq![
                (Seq::<ComponentId>::empty(), Seq::<ComponentId>::empty()),
            ],
            w.archetypes@[0]@ == Seq::<ArchetypeEntity>::empty(),
            w.table_of(0) == 0,
            w.archetypes@[0].spec_edges().add_edges() == Map::<usize, AddBundle>::empty(),
            w.archetypes@[0].spec_edges().remove_edges() == Map::<usize, Option<ArchetypeId>>::empty(),
            w.archetypes@[0].spec_edges().remove_intersection_edges() == Map::<
                usize,
                Option<ArchetypeId>,
            >::empty(),
            w.storages.tables@.len() == 1,
            w.storages.tables.keys() == seq![Seq::<ComponentId>::empty()],
            w.storages.tables@[0]@ == Seq::<Entity>::empty(),
            w.storages.resources.wf(),
            w.storages.resources.order().len() == 0,
            w.storages.sparse_sets.wf(),
            w.storages.sparse_sets@ == Map::<usize, ComponentSparseSet>::empty(),
            w.components@.len() == 0,
            w.bundles@.len() == 0,
    {
        let w = World {
            components: Components::new(),
            bundles: Bundles::new(),
            entities: Entities::new(),
            archetypes: Archetypes::new(),
            storages: Storages {
                tables: Tables::new(),
                sparse_sets: SparseSets::new(),
                resources: Resources::new(),
            },
        };
        assert(w.archetypes.identities() =~= seq![
            (Seq::<ComponentId>::empty(), Seq::<ComponentId>::empty()),
        ]);
        assert(w.storages.tables.keys() =~= seq![Seq::<ComponentId>::empty()]);
        w
    }

    /// In a well-formed world every recorded location names an entry of an
    /// archetype, which is what iteration over a list of entities needs.
    pub proof fn lemma_locations_valid(&self)
        requires
            self.rows_wf(),
        ensures
            locations_valid(&self.entities, &self.archetypes),
    {
        assert forall|i: int|
            0 <= i < self.entities@.len() && (#[trigger] self.entities@[i]).location is Some implies {
            let location = self.entities@[i].location->0;
            &&& location.archetype_id.spec_index() < self.archetypes@.len()
            &&& location.index < self.archetypes@[location.archetype_id.spec_index() as int]@.len()
        } by {
            assert(self.location_consistent(i));
            assert(self.entities.wf());
            self.lemma_placed_is_live(i);
        }
    }

    /// A slot that records a location is live.
    pub proof fn lemma_placed_is_live(&self, slot: int)
        requires
            self.entities.wf(),
            0 <= slot < self.entities@.len(),
            self.entities@[slot].location is Some,
        ensures
            self.entities@[slot].live,
    {
        self.entities.lemma_placed_is_live(slot);
    }

    /// In a well-formed world a query that has drawn its matches from the
    /// world's archetypes can be iterated.
    pub proof fn lemma_query_valid<F: QueryFilter>(&self, state: &QueryState<F>)
        requires
            self.rows_wf(),
            state.wf(),
            state.drawn_from(&self.archetypes),
        ensures
            state.valid_for(&self.archetypes, &self.storages.tables),
    {
        assert forall|i: int| 0 <= i < state.archetype_indices().len() implies (
        #[trigger] state.archetype_indices()[i]) < self.archetypes@.len()
            && self.archetypes@[state.archetype_indices()[i] as int].spec_table_id().0
            < self.storages.tables@.len()
            && self.storages.tables@[self.archetypes@[state.archetype_indices()[i] as int]
                .spec_table_id().0 as int].wf() by {
            let a = state.archetype_indices()[i] as int;
            assert(0 <= self.table_of(a) < self.storages.tables@.len());
        }
        assert forall|i: int| 0 <= i < state.table_ids().len() implies (
        #[trigger] state.table_ids()[i]).0 < self.storages.tables@.len()
            && self.storages.tables@[state.table_ids()[i].0 as int].wf() by {
            assert(table_backed(self.archetypes@, state.archetype_indices(), state.table_ids()[i]));
            let k = choose|k: int|
                0 <= k < state.archetype_indices().len()
                    && #[trigger] self.archetypes@[state.archetype_indices()[k] as int].spec_table_id()
                    == state.table_ids()[i];
            let a = state.archetype_indices()[k] as int;
            assert(0 <= self.table_of(a) < self.storages.tables@.len());
        }
    }

    pub fn storages(&self) -> (s: &Storages)
        ensures
            *s == self.storages,
    {
        &self.storages
    }

    /// In a well-formed world an archetype entry is the one that is
    /// recorded for the entity of its table row.
    pub proof fn lemma_row_owner(&self, a: int, i: int)
        requires
            self.rows_wf(),
            0 <= a < self.archetypes@.len(),
            0 <= i < self.archetypes@[a]@.len(),
        ensures
            self.entry_consistent(a, i),
            self.row_consistent(self.table_of(a), self.archetypes@[a]@[i].table_row as int),
            self.entities.location_of(
                self.storages.tables@[self.table_of(a)]@[self.archetypes@[a]@[i].table_row as int],
            ) matches Some(location) && location.archetype_id.spec_index() == a && location.index
                == i,
    {
        assert(self.entry_consistent(a, i));
        assert(0 <= self.table_of(a) < self.storages.tables@.len());
    }

    /// In a well-formed world the entity of a table row is recorded in an
    /// archetype entry that names the row.
    pub proof fn lemma_entry_of_row(&self, t: int, r: int) -> (place: (int, int))
        requires
            self.rows_wf(),
            0 <= t < self.storages.tables@.len(),
            0 <= r < self.storages.tables@[t]@.len(),
        ensures
            0 <= place.0 < self.archetypes@.len(),
            0 <= place.1 < self.archetypes@[place.0]@.len(),
            self.table_of(place.0) == t,
            self.archetypes@[place.0]@[place.1].entity == self.storages.tables@[t]@[r],
            self.archetypes@[place.0]@[place.1].table_row == r,
            self.entities.location_of(self.storages.tables@[t]@[r]) matches Some(location)
                && location.archetype_id.spec_index() == place.0 && location.index == place.1,
            self.entry_consistent(place.0, place.1),
    {
        assert(self.row_consistent(t, r));
        let location = self.entities.location_of(self.storages.tables@[t]@[r])->0;
        let place = (location.archetype_id.spec_index() as int, location.index as int);
        assert(self.entry_consistent(place.0, place.1));
        place
    }
}

} // verus!
