//! Archetypes: collections of entities that have the same set of components,
//! and the graph that structural changes walk between them.

use crate::bundle::BundleId;
use crate::component::{ComponentId, StorageType};
use crate::entity::{Entity, EntityLocation};
use crate::registry::{id_for, law_ids_are_append_only, register};
use crate::storage::sparse_set::{SparseArray, SparseSet};
use crate::storage::table::TableId;
use nonmax::NonMaxU32;
use vstd::prelude::*;

verus! {

/// `nonmax::NonMaxU32`, carried as an opaque value: an integer that is never
/// `u32::MAX`, so that an optional one takes no more room.
#[verifier::external_type_specification]
#[verifier::external_body]
pub struct ExNonMaxU32(NonMaxU32);

/// The integer that a `nonmax::NonMaxU32` holds.
pub uninterp spec fn nonmax_value(n: NonMaxU32) -> u32;

/// `nonmax::NonMaxU32::new`: refuses `u32::MAX` and wraps every other value,
/// which the result then holds.
pub assume_specification[ NonMaxU32::new ](value: u32) -> (r: Option<NonMaxU32>)
    ensures
        value == u32::MAX ==> r is None,
        value < u32::MAX ==> r is Some && nonmax_value(r->0) == value,
;

/// `nonmax::NonMaxU32::get`: hands back the held value, which is never
/// `u32::MAX`.
pub assume_specification[ NonMaxU32::get ](n: &NonMaxU32) -> (v: u32)
    ensures
        v == nonmax_value(*n),
        v < u32::MAX,
;

/// Identifier of an archetype: its position in [`Archetypes`]. The value
/// `u32::MAX` is reserved, so an optional id costs no extra space.
#[derive(Debug, Copy, Clone, Eq, PartialEq, Hash)]
pub struct ArchetypeId(NonMaxU32);

impl ArchetypeId {
    /// The index this id stands for.
    pub closed spec fn spec_index(self) -> usize {
        nonmax_value(self.0) as usize
    }

    /// The id of the archetype without components, which always exists.
    pub fn empty() -> (id: Self)
        ensures
            id.spec_index() == 0,
    {
        Self::new(0)
    }

    /// Creates the id for `index`. The index must be below the reserved value.
    pub fn new(index: usize) -> (id: Self)
        requires
            index < u32::MAX,
        ensures
            id.spec_index() == index,
    {
        ArchetypeId(NonMaxU32::new(index as u32).unwrap())
    }

    /// Same as [`ArchetypeId::new`]; kept for callers that have already
    /// established the bound.
    pub fn new_unchecked(index: usize) -> (id: Self)
        requires
            index < u32::MAX,
        ensures
            id.spec_index() == index,
    {
        Self::new(index)
    }

    /// Gets the corresponding index for the id.
    #[verifier::when_used_as_spec(spec_index)]
    pub fn index(self) -> (i: usize)
        ensures
            i == self.spec_index(),
            i < u32::MAX,
    {
        self.0.get() as usize
    }
}


/// Identifier of one (archetype, component) storage position. Ids are handed
/// out in increasing order and never reused.
#[derive(Debug, Copy, Clone, Eq, PartialEq, Hash)]
pub struct ArchetypeComponentId(NonMaxU32);

impl ArchetypeComponentId {
    /// The index this id stands for.
    pub closed spec fn spec_index(self) -> usize {
        nonmax_value(self.0) as usize
    }

    /// Creates the id for `index`. The index must be below the reserved value.
    pub fn new(index: usize) -> (id: Self)
        requires
            index < u32::MAX,
        ensures
            id.spec_index() == index,
    {
        ArchetypeComponentId(NonMaxU32::new(index as u32).unwrap())
    }

    /// Same as [`ArchetypeComponentId::new`]; kept for callers that have
    /// already established the bound.
    pub fn new_unchecked(index: usize) -> (id: Self)
        requires
            index < u32::MAX,
        ensures
            id.spec_index() == index,
    {
        Self::new(index)
    }

    #[verifier::when_used_as_spec(spec_index)]
    pub fn index(self) -> (i: usize)
        ensures
            i == self.spec_index(),
            i < u32::MAX,
    {
        self.0.get() as usize
    }

    /// The key under which a sparse set files this id.
    pub fn sparse_set_index(&self) -> (i: usize)
        ensures
            i == self.spec_index(),
            i < u32::MAX,
    {
        self.0.get() as usize
    }

    /// The id that a sparse set files under `value`.
    pub fn get_sparse_set_index(value: usize) -> (id: Self)
        requires
            value < u32::MAX,
        ensures
            id.spec_index() == value,
    {
        Self::new(value)
    }

    /// The form in which a sparse set stores the position `index`.
    pub fn repr_from_index(index: usize) -> (repr: NonMaxU32)
        requires
            index < u32::MAX,
        ensures
            nonmax_value(repr) == index,
    {
        NonMaxU32::new(index as u32).unwrap()
    }

    /// The position that a sparse set stored as `repr`.
    pub fn repr_to_index(repr: &NonMaxU32) -> (index: usize)
        ensures
            index == nonmax_value(*repr),
            index < u32::MAX,
    {
        repr.get() as usize
    }
}

/// Whether a component of an inserted bundle was new to the entity or
/// overwrote a value it already had.
#[derive(Debug, Copy, Clone, PartialEq, Eq, Structural)]
pub enum ComponentStatus {
    Added,
    Mutated,
}

/// Cached result of adding a bundle to an archetype.
pub struct AddBundle {
    pub archetype_id: ArchetypeId,
    pub bundle_status: Vec<ComponentStatus>,
}

/// Reports the status of bundle components that are being added to an
/// entity, relative to the archetype that the entity is in.
pub trait BundleComponentStatus {
    /// Whether `index` names a component of the bundle.
    spec fn valid_index(&self, index: usize) -> bool;

    /// The status of the bundle's component number `index`.
    spec fn status_at(&self, index: usize) -> ComponentStatus;

    fn get_status(&self, index: usize) -> (s: ComponentStatus)
        requires
            self.valid_index(index),
        ensures
            s == self.status_at(index),
    ;
}

impl BundleComponentStatus for AddBundle {
    open spec fn valid_index(&self, index: usize) -> bool {
        index < self.bundle_status@.len()
    }

    open spec fn status_at(&self, index: usize) -> ComponentStatus {
        self.bundle_status@[index as int]
    }

    fn get_status(&self, index: usize) -> (s: ComponentStatus) {
        self.bundle_status[index]
    }
}

/// Status source for a freshly spawned entity: every component is new.
pub struct SpawnBundleStatus;

impl BundleComponentStatus for SpawnBundleStatus {
    open spec fn valid_index(&self, index: usize) -> bool {
        true
    }

    open spec fn status_at(&self, index: usize) -> ComponentStatus {
        ComponentStatus::Added
    }

    fn get_status(&self, index: usize) -> (s: ComponentStatus) {
        ComponentStatus::Added
    }
}

/// Per-archetype cache of structural moves, keyed by bundle.
///
/// The cache only holds edges that have been walked already: a missing edge
/// says nothing about whether the move is possible.
pub struct Edges {
    add_bundle: SparseArray<AddBundle>,
    remove_bundle: SparseArray<Option<ArchetypeId>>,
    remove_bundle_intersection: SparseArray<Option<ArchetypeId>>,
}

impl Edges {
    /// Cached add-bundle edges by bundle index.
    pub closed spec fn add_edges(&self) -> Map<usize, AddBundle> {
        self.add_bundle@
    }

    /// Cached remove-bundle edges by bundle index.
    pub closed spec fn remove_edges(&self) -> Map<usize, Option<ArchetypeId>> {
        self.remove_bundle@
    }

    /// Cached remove-intersection edges by bundle index.
    pub closed spec fn remove_intersection_edges(&self) -> Map<usize, Option<ArchetypeId>> {
        self.remove_bundle_intersection@
    }

    /// A cache without edges.
    pub fn new() -> (e: Self)
        ensures
            e.add_edges() == Map::<usize, AddBundle>::empty(),
            e.remove_edges() == Map::<usize, Option<ArchetypeId>>::empty(),
            e.remove_intersection_edges() == Map::<usize, Option<ArchetypeId>>::empty(),
    {
        Edges {
            add_bundle: SparseArray::new(),
            remove_bundle: SparseArray::new(),
            remove_bundle_intersection: SparseArray::new(),
        }
    }

    pub fn get_add_bundle(&self, bundle_id: BundleId) -> (r: Option<&AddBundle>)
        ensures
            match r {
                Some(edge) => self.add_edges().contains_key(bundle_id.0) && *edge
                    == self.add_edges()[bundle_id.0],
                None => !self.add_edges().contains_key(bundle_id.0),
            },
    {
        self.add_bundle.get(bundle_id.0)
    }

    pub fn insert_add_bundle(
        &mut self,
        bundle_id: BundleId,
        archetype_id: ArchetypeId,
        bundle_status: Vec<ComponentStatus>,
    )
        ensures
            final(self).add_edges() == old(self).add_edges().insert(
                bundle_id.0,
                AddBundle { archetype_id, bundle_status },
            ),
            final(self).remove_edges() == old(self).remove_edges(),
            final(self).remove_intersection_edges() == old(self).remove_intersection_edges(),
    {
        self.add_bundle.insert(bundle_id.0, AddBundle { archetype_id, bundle_status });
    }

    pub fn get_remove_bundle(&self, bundle_id: BundleId) -> (r: Option<Option<ArchetypeId>>)
        ensures
            match r {
                Some(edge) => self.remove_edges().contains_key(bundle_id.0) && edge
                    == self.remove_edges()[bundle_id.0],
                None => !self.remove_edges().contains_key(bundle_id.0),
            },
    {
        match self.remove_bundle.get(bundle_id.0) {
            Some(edge) => Some(*edge),
            None => None,
        }
    }

    pub fn insert_remove_bundle(&mut self, bundle_id: BundleId, archetype_id: Option<ArchetypeId>)
        ensures
            final(self).remove_edges() == old(self).remove_edges().insert(
                bundle_id.0,
                archetype_id,
            ),
            final(self).add_edges() == old(self).add_edges(),
            final(self).remove_intersection_edges() == old(self).remove_intersection_edges(),
    {
        self.remove_bundle.insert(bundle_id.0, archetype_id);
    }

    pub fn get_remove_bundle_intersection(&self, bundle_id: BundleId) -> (r: Option<
        Option<ArchetypeId>,
    >)
        ensures
            match r {
                Some(edge) => self.remove_intersection_edges().contains_key(bundle_id.0) && edge
                    == self.remove_intersection_edges()[bundle_id.0],
                None => !self.remove_intersection_edges().contains_key(bundle_id.0),
            },
    {
        match self.remove_bundle_intersection.get(bundle_id.0) {
            Some(edge) => Some(*edge),
            None => None,
        }
    }

    pub fn insert_remove_bundle_intersection(
        &mut self,
        bundle_id: BundleId,
        archetype_id: Option<ArchetypeId>,
    )
        ensures
            final(self).remove_intersection_edges() == old(
                self,
            ).remove_intersection_edges().insert(bundle_id.0, archetype_id),
            final(self).add_edges() == old(self).add_edges(),
            final(self).remove_edges() == old(self).remove_edges(),
    {
        self.remove_bundle_intersection.insert(bundle_id.0, archetype_id);
    }
}

impl Default for Edges {
    fn default() -> (e: Self)
        ensures
            e.add_edges() == Map::<usize, AddBundle>::empty(),
            e.remove_edges() == Map::<usize, Option<ArchetypeId>>::empty(),
            e.remove_intersection_edges() == Map::<usize, Option<ArchetypeId>>::empty(),
    {
        Edges::new()
    }
}

/// One entry of an archetype's entity list: the entity and its row in the
/// archetype's table.
#[derive(Debug, Copy, Clone, PartialEq, Eq, Structural)]
pub struct ArchetypeEntity {
    pub entity: Entity,
    pub table_row: usize,
}

impl ArchetypeEntity {
    pub fn entity(&self) -> (e: Entity)
        ensures
            e == self.entity,
    {
        self.entity
    }

    pub fn table_row(&self) -> (row: usize)
        ensures
            row == self.table_row,
    {
        self.table_row
    }
}

/// What [`Archetype::swap_remove`] reports: the entity that was moved into
/// the vacated position, if any, and the table row of the removed entity.
#[derive(Debug, Copy, Clone, PartialEq, Eq, Structural)]
pub struct ArchetypeSwapRemoveResult {
    pub swapped_entity: Option<Entity>,
    pub table_row: usize,
}

/// How one component is stored in one archetype.
#[derive(Debug, Copy, Clone)]
pub struct ArchetypeComponentInfo {
    pub storage_type: StorageType,
    pub archetype_component_id: ArchetypeComponentId,
}

/// The components of an archetype as plain values: component index to
/// storage type and archetype-component index.
pub type ComponentSlots = Map<usize, (StorageType, usize)>;

/// `slots` after filing each `(component, archetype-component)` pair of
/// `pairs` under `storage`, in order. A later pair replaces an earlier one
/// for the same component.
pub open spec fn with_components(
    slots: ComponentSlots,
    pairs: Seq<(usize, usize)>,
    storage: StorageType,
) -> ComponentSlots
    decreases pairs.len(),
{
    if pairs.len() == 0 {
        slots
    } else {
        with_components(slots, pairs.drop_last(), storage).insert(
            pairs.last().0,
            (storage, pairs.last().1),
        )
    }
}

/// `order` after appending each component of `pairs` that is not in it yet.
pub open spec fn order_after(order: Seq<usize>, pairs: Seq<(usize, usize)>) -> Seq<usize>
    decreases pairs.len(),
{
    if pairs.len() == 0 {
        order
    } else {
        let before = order_after(order, pairs.drop_last());
        if before.contains(pairs.last().0) {
            before
        } else {
            before.push(pairs.last().0)
        }
    }
}

/// The pairs of a component list as plain indices.
pub open spec fn pair_indices(pairs: Seq<(ComponentId, ArchetypeComponentId)>) -> Seq<
    (usize, usize),
> {
    Seq::new(pairs.len(), |i: int| (pairs[i].0.0, pairs[i].1.spec_index()))
}

/// The components of `order` that `slots` stores as `storage`, in order.
pub open spec fn stored_as(order: Seq<usize>, slots: ComponentSlots, storage: StorageType) -> Seq<
    ComponentId,
>
    decreases order.len(),
{
    if order.len() == 0 {
        Seq::empty()
    } else {
        let before = stored_as(order.drop_last(), slots, storage);
        if slots[order.last()].0 == storage {
            before.push(ComponentId(order.last()))
        } else {
            before
        }
    }
}

/// The set of entities that share one combination of components.
pub struct Archetype {
    id: ArchetypeId,
    table_id: TableId,
    edges: Edges,
    entities: Vec<ArchetypeEntity>,
    components: SparseSet<ArchetypeComponentInfo>,
}

impl Archetype {
    pub closed spec fn spec_id(&self) -> ArchetypeId {
        self.id
    }

    pub closed spec fn spec_table_id(&self) -> TableId {
        self.table_id
    }

    pub closed spec fn spec_edges(&self) -> Edges {
        self.edges
    }

    /// The entity list.
    pub closed spec fn view(&self) -> Seq<ArchetypeEntity> {
        self.entities@
    }

    /// The components of the archetype, see [`ComponentSlots`].
    pub closed spec fn slots(&self) -> ComponentSlots {
        Map::new(
            |k: usize| self.components@.contains_key(k),
            |k: usize|
                (
                    self.components@[k].storage_type,
                    self.components@[k].archetype_component_id.spec_index(),
                ),
        )
    }

    /// The component indices in the order in which they were filed.
    pub closed spec fn component_order(&self) -> Seq<usize> {
        self.components.keys()
    }

    /// The component set is consistent: `component_order()` lists exactly the
    /// components of `slots()`, each once.
    pub closed spec fn wf(&self) -> bool {
        self.components.wf()
    }

    /// What well-formedness says of the public views.
    pub proof fn lemma_wf(&self)
        requires
            self.wf(),
        ensures
            self.component_order().no_duplicates(),
            forall|k: usize| self.slots().contains_key(k) <==> self.component_order().contains(k),
    {
        self.components.lemma_keys();
    }

    /// Builds an archetype without entities. Table components are filed
    /// before sparse-set components.
    pub fn new(
        id: ArchetypeId,
        table_id: TableId,
        table_components: Vec<(ComponentId, ArchetypeComponentId)>,
        sparse_set_components: Vec<(ComponentId, ArchetypeComponentId)>,
    ) -> (a: Self)
        ensures
            a.wf(),
            a.spec_id() == id,
            a.spec_table_id() == table_id,
            a@ == Seq::<ArchetypeEntity>::empty(),
            a.slots() == with_components(
                with_components(Map::empty(), pair_indices(table_components@), StorageType::Table),
                pair_indices(sparse_set_components@),
                StorageType::SparseSet,
            ),
            a.component_order() == order_after(
                order_after(Seq::empty(), pair_indices(table_components@)),
                pair_indices(sparse_set_components@),
            ),
            a.spec_edges().add_edges() == Map::<usize, AddBundle>::empty(),
            a.spec_edges().remove_edges() == Map::<usize, Option<ArchetypeId>>::empty(),
            a.spec_edges().remove_intersection_edges() == Map::<
                usize,
                Option<ArchetypeId>,
            >::empty(),
    {
        let mut a = Archetype {
            id,
            table_id,
            edges: Edges::new(),
            entities: Vec::new(),
            components: SparseSet::with_capacity(0),
        };
        assert(a.slots() =~= Map::<usize, (StorageType, usize)>::empty());
        a.file(&table_components, StorageType::Table);
        a.file(&sparse_set_components, StorageType::SparseSet);
        a
    }

    /// Files every pair of `pairs` under `storage`.
    fn file(&mut self, pairs: &Vec<(ComponentId, ArchetypeComponentId)>, storage: StorageType)
        requires
            old(self).wf(),
        ensures
            final(self).wf(),
            final(self).spec_id() == old(self).spec_id(),
            final(self).spec_table_id() == old(self).spec_table_id(),
            final(self).spec_edges() == old(self).spec_edges(),
            final(self)@ == old(self)@,
            final(self).slots() == with_components(old(self).slots(), pair_indices(pairs@), storage),
            final(self).component_order() == order_after(
                old(self).component_order(),
                pair_indices(pairs@),
            ),
    {
        let ghost all = pair_indices(pairs@);
        let mut i: usize = 0;
        while i < pairs.len()
            invariant
                i <= pairs.len(),
                all == pair_indices(pairs@),
                self.wf(),
                self.spec_id() == old(self).spec_id(),
                self.spec_table_id() == old(self).spec_table_id(),
                self.spec_edges() == old(self).spec_edges(),
                self@ == old(self)@,
                self.slots() == with_components(old(self).slots(), all.take(i as int), storage),
                self.component_order() == order_after(
                    old(self).component_order(),
                    all.take(i as int),
                ),
            decreases pairs.len() - i,
        {
            let (component_id, archetype_component_id) = pairs[i];
            proof {
                self.components.lemma_keys();
                assert(all.take(i + 1).drop_last() =~= all.take(i as int));
                assert(all.take(i + 1).last() == (
                    component_id.0,
                    archetype_component_id.spec_index(),
                ));
            }
            let ghost before = self.slots();
            self.components.insert(
                component_id.0,
                ArchetypeComponentInfo { storage_type: storage, archetype_component_id },
            );
            assert(self.slots() =~= before.insert(
                component_id.0,
                (storage, archetype_component_id.spec_index()),
            ));
            i += 1;
        }
        assert(all.take(pairs.len() as int) =~= all);
    }

    #[verifier::when_used_as_spec(spec_id)]
    pub fn id(&self) -> (id: ArchetypeId)
        ensures
            id == self.spec_id(),
    {
        self.id
    }

    #[verifier::when_used_as_spec(spec_table_id)]
    pub fn table_id(&self) -> (id: TableId)
        ensures
            id == self.spec_table_id(),
    {
        self.table_id
    }

    pub fn entities(&self) -> (entities: &[ArchetypeEntity])
        ensures
            entities@ == self@,
    {
        self.entities.as_slice()
    }

    /// The components of `storage`, in filing order.
    fn components_stored_as(&self, storage: StorageType) -> (ids: Vec<ComponentId>)
        requires
            self.wf(),
        ensures
            ids@ == stored_as(self.component_order(), self.slots(), storage),
    {
        let mut ids: Vec<ComponentId> = Vec::new();
        let mut i: usize = 0;
        let n: usize = self.components.len();
        while i < n
            invariant
                i <= n,
                n == self.component_order().len(),
                self.wf(),
                ids@ == stored_as(self.component_order().take(i as int), self.slots(), storage),
            decreases n - i,
        {
            proof {
                self.components.lemma_keys();
                assert(self.component_order().take(i + 1).drop_last()
                    =~= self.component_order().take(i as int));
            }
            let key: usize = self.components.key_at(i);
            if self.components.value_at(i).storage_type == storage {
                ids.push(ComponentId(key));
            }
            i += 1;
        }
        assert(self.component_order().take(n as int) =~= self.component_order());
        ids
    }

    /// The table-stored components, in filing order.
    pub fn table_components(&self) -> (ids: Vec<ComponentId>)
        requires
            self.wf(),
        ensures
            ids@ == stored_as(self.component_order(), self.slots(), StorageType::Table),
    {
        self.components_stored_as(StorageType::Table)
    }

    /// The sparse-set components, in filing order.
    pub fn sparse_set_components(&self) -> (ids: Vec<ComponentId>)
        requires
            self.wf(),
        ensures
            ids@ == stored_as(self.component_order(), self.slots(), StorageType::SparseSet),
    {
        self.components_stored_as(StorageType::SparseSet)
    }

    /// All components, in filing order.
    pub fn components(&self) -> (ids: Vec<ComponentId>)
        requires
            self.wf(),
        ensures
            ids@.len() == self.component_order().len(),
            forall|i: int| 0 <= i < ids@.len() ==> (#[trigger] ids@[i]).0 == self.component_order()[i],
    {
        let mut ids: Vec<ComponentId> = Vec::new();
        let mut i: usize = 0;
        let n: usize = self.components.len();
        while i < n
            invariant
                i <= n,
                n == self.component_order().len(),
                self.wf(),
                ids@.len() == i,
                forall|j: int| 0 <= j < i ==> (#[trigger] ids@[j]).0 == self.component_order()[j],
            decreases n - i,
        {
            ids.push(ComponentId(self.components.key_at(i)));
            i += 1;
        }
        ids
    }

    pub fn edges(&self) -> (edges: &Edges)
        ensures
            *edges == self.spec_edges(),
    {
        &self.edges
    }

    /// The edge cache, for filling. Nothing else of the archetype changes.
    pub fn edges_mut(&mut self) -> (edges: &mut Edges)
        ensures
            *edges == old(self).spec_edges(),
            final(self).spec_edges() == *final(edges),
            final(self).spec_id() == old(self).spec_id(),
            final(self).spec_table_id() == old(self).spec_table_id(),
            final(self)@ == old(self)@,
            final(self).slots() == old(self).slots(),
            final(self).component_order() == old(self).component_order(),
            final(self).wf() == old(self).wf(),
    {
        &mut self.edges
    }

    /// The table row of the entity at `index`.
    pub fn entity_table_row(&self, index: usize) -> (row: usize)
        requires
            index < self@.len(),
        ensures
            row == self@[index as int].table_row,
    {
        self.entities[index].table_row
    }

    pub fn set_entity_table_row(&mut self, index: usize, table_row: usize)
        requires
            index < old(self)@.len(),
        ensures
            final(self)@ == old(self)@.update(
                index as int,
                ArchetypeEntity { entity: old(self)@[index as int].entity, table_row },
            ),
            final(self).unchanged_but_entities(old(self)),
    {
        let entity = self.entities[index].entity;
        self.entities[index] = ArchetypeEntity { entity, table_row };
    }

    /// Everything but the entity list is as in `before`.
    pub open spec fn unchanged_but_entities(&self, before: &Self) -> bool {
        &&& self.spec_id() == before.spec_id()
        &&& self.spec_table_id() == before.spec_table_id()
        &&& self.spec_edges() == before.spec_edges()
        &&& self.slots() == before.slots()
        &&& self.component_order() == before.component_order()
        &&& self.wf() == before.wf()
    }

    /// Appends `entity` with its table row and returns where it now lives.
    pub fn allocate(&mut self, entity: Entity, table_row: usize) -> (location: EntityLocation)
        ensures
            final(self)@ == old(self)@.push(ArchetypeEntity { entity, table_row }),
            final(self).unchanged_but_entities(old(self)),
            location.archetype_id == old(self).spec_id(),
            location.index == old(self)@.len(),
    {
        self.entities.push(ArchetypeEntity { entity, table_row });
        EntityLocation { archetype_id: self.id, index: self.entities.len() - 1 }
    }

    pub fn reserve(&mut self, additional: usize)
        ensures
            final(self)@ == old(self)@,
            final(self).unchanged_but_entities(old(self)),
    {
        self.entities.reserve(additional);
    }

    /// Removes the entity at `index` by moving the last entity into its
    /// place. Reports the removed entity's table row and, unless the removed
    /// entity was the last one, the entity that moved.
    ///
    /// No position other than `index` changes; if `index` was the last
    /// position, no remaining entity moves at all.
    pub fn swap_remove(&mut self, index: usize) -> (r: ArchetypeSwapRemoveResult)
        requires
            index < old(self)@.len(),
        ensures
            final(self)@.len() == old(self)@.len() - 1,
            forall|j: int|
                0 <= j < final(self)@.len() && j != index ==> #[trigger] final(self)@[j] == old(
                    self,
                )@[j],
            index < final(self)@.len() ==> final(self)@[index as int] == old(self)@.last(),
            r.table_row == old(self)@[index as int].table_row,
            r.swapped_entity == if index == old(self)@.len() - 1 {
                None
            } else {
                Some(old(self)@.last().entity)
            },
            final(self).unchanged_but_entities(old(self)),
    {
        let is_last = index == self.entities.len() - 1;
        let entity = self.entities.swap_remove(index);
        ArchetypeSwapRemoveResult {
            swapped_entity: if is_last {
                None
            } else {
                Some(self.entities[index].entity)
            },
            table_row: entity.table_row,
        }
    }

    #[verifier::when_used_as_spec(spec_len)]
    pub fn len(&self) -> (n: usize)
        ensures
            n == self@.len(),
    {
        self.entities.len()
    }

    pub open spec fn spec_len(&self) -> usize {
        self@.len() as usize
    }

    pub fn is_empty(&self) -> (b: bool)
        ensures
            b == (self@.len() == 0),
    {
        self.entities.len() == 0
    }

    pub fn contains(&self, component_id: ComponentId) -> (b: bool)
        ensures
            b == self.slots().contains_key(component_id.0),
    {
        self.components.contains(component_id.0)
    }

    pub fn get_storage_type(&self, component_id: ComponentId) -> (r: Option<StorageType>)
        requires
            self.wf(),
        ensures
            r == if self.slots().contains_key(component_id.0) {
                Some(self.slots()[component_id.0].0)
            } else {
                None
            },
    {
        match self.components.get(component_id.0) {
            Some(info) => Some(info.storage_type),
            None => None,
        }
    }

    pub fn get_archetype_component_id(&self, component_id: ComponentId) -> (r: Option<
        ArchetypeComponentId,
    >)
        requires
            self.wf(),
        ensures
            match r {
                Some(id) => self.slots().contains_key(component_id.0) && id.spec_index()
                    == self.slots()[component_id.0].1,
                None => !self.slots().contains_key(component_id.0),
            },
    {
        match self.components.get(component_id.0) {
            Some(info) => Some(info.archetype_component_id),
            None => None,
        }
    }

    pub fn clear_entities(&mut self)
        ensures
            final(self)@ == Seq::<ArchetypeEntity>::empty(),
            final(self).unchanged_but_entities(old(self)),
    {
        self.entities.clear();
    }
}

/// A generational id that changes every time the set of archetypes changes.
#[derive(Debug, Copy, Clone, PartialEq, Eq, Structural)]
pub struct ArchetypeGeneration(pub usize);

impl ArchetypeGeneration {
    /// The generation of a world in which no archetype has been created yet.
    pub fn initial() -> (g: Self)
        ensures
            g.0 == 0,
    {
        ArchetypeGeneration(0)
    }

    /// The number of archetypes that existed when this generation was taken.
    pub fn value(self) -> (v: usize)
        ensures
            v == self.0,
    {
        self.0
    }
}

/// The identity of an archetype as plain values: its table components and
/// its sparse-set components, each in the order in which they were given.
pub type IdentityKey = (Seq<ComponentId>, Seq<ComponentId>);

/// The component lists that identify an archetype. Two entities with the same
/// lists always share one archetype.
#[derive(Debug, Clone, PartialEq, Eq, Hash)]
pub struct ArchetypeIdentity {
    table_components: Vec<ComponentId>,
    sparse_set_components: Vec<ComponentId>,
}

/// Compares two component lists element by element.
pub fn same_components(a: &Vec<ComponentId>, b: &Vec<ComponentId>) -> (same: bool)
    ensures
        same == (a@ == b@),
{
    if a.len() != b.len() {
        return false;
    }
    let mut i: usize = 0;
    while i < a.len()
        invariant
            i <= a.len(),
            a.len() == b.len(),
            forall|j: int| 0 <= j < i ==> a@[j] == b@[j],
        decreases a.len() - i,
    {
        if a[i] != b[i] {
            return false;
        }
        i += 1;
    }
    assert(a@ =~= b@);
    true
}

impl ArchetypeIdentity {
    pub closed spec fn view(&self) -> IdentityKey {
        (self.table_components@, self.sparse_set_components@)
    }

    pub fn new(
        table_components: Vec<ComponentId>,
        sparse_set_components: Vec<ComponentId>,
    ) -> (i: Self)
        ensures
            i@ == (table_components@, sparse_set_components@),
    {
        ArchetypeIdentity { table_components, sparse_set_components }
    }

    /// Whether this identity is made of exactly the given lists.
    pub fn matches(
        &self,
        table_components: &Vec<ComponentId>,
        sparse_set_components: &Vec<ComponentId>,
    ) -> (same: bool)
        ensures
            same == (self@ == (table_components@, sparse_set_components@)),
    {
        same_components(&self.table_components, table_components) && same_components(
            &self.sparse_set_components,
            sparse_set_components,
        )
    }
}

/// `ids` numbered from `first`, as pairs of plain indices.
pub open spec fn numbered(ids: Seq<ComponentId>, first: int) -> Seq<(usize, usize)> {
    Seq::new(ids.len(), |k: int| (ids[k].0, (first + k) as usize))
}

/// The component slots of the archetype with identity `key` whose first
/// archetype-component index is `first`: table components are numbered
/// before sparse-set components.
pub open spec fn identity_slots(key: IdentityKey, first: int) -> ComponentSlots {
    with_components(
        with_components(Map::empty(), numbered(key.0, first), StorageType::Table),
        numbered(key.1, first + key.0.len()),
        StorageType::SparseSet,
    )
}

/// The filing order of the components of the archetype with identity `key`.
pub open spec fn identity_order(key: IdentityKey, first: int) -> Seq<usize> {
    order_after(
        order_after(Seq::empty(), numbered(key.0, first)),
        numbered(key.1, first + key.0.len()),
    )
}

/// The number of archetype-component indices handed out to the first `n`
/// archetypes of `ids`.
pub open spec fn slots_before(ids: Seq<IdentityKey>, n: int) -> int
    decreases n,
{
    if n <= 0 {
        0
    } else {
        slots_before(ids, n - 1) + ids[n - 1].0.len() + ids[n - 1].1.len()
    }
}

/// `slots_before` looks only at the archetypes before `n`.
pub proof fn lemma_slots_before_prefix(a: Seq<IdentityKey>, b: Seq<IdentityKey>, n: int)
    requires
        0 <= n <= a.len(),
        a.len() <= b.len(),
        forall|i: int| 0 <= i < n ==> a[i] == b[i],
    ensures
        slots_before(a, n) == slots_before(b, n),
    decreases n,
{
    if n > 0 {
        lemma_slots_before_prefix(a, b, n - 1);
    }
}

/// `slots_before` never decreases.
pub proof fn lemma_slots_before_monotonic(ids: Seq<IdentityKey>, m: int, n: int)
    requires
        0 <= m <= n,
    ensures
        0 <= slots_before(ids, m) <= slots_before(ids, n),
    decreases n,
{
    if n > m {
        lemma_slots_before_monotonic(ids, m, n - 1);
    } else if n > 0 {
        lemma_slots_before_monotonic(ids, m - 1, n - 1);
    }
}

/// Every slot of `with_components(slots, pairs, storage)` comes from `slots`
/// or from the last pair of `pairs` that names its component.
pub proof fn lemma_with_components(
    slots: ComponentSlots,
    pairs: Seq<(usize, usize)>,
    storage: StorageType,
    k: usize,
)
    ensures
        with_components(slots, pairs, storage).contains_key(k) <==> slots.contains_key(k) || exists|
            p: int,
        |
            0 <= p < pairs.len() && #[trigger] pairs[p].0 == k,
        (forall|p: int| 0 <= p < pairs.len() ==> #[trigger] pairs[p].0 != k) ==> with_components(
            slots,
            pairs,
            storage,
        )[k] == slots[k],
        (exists|p: int| 0 <= p < pairs.len() && #[trigger] pairs[p].0 == k) ==> exists|p: int|
            0 <= p < pairs.len() && #[trigger] pairs[p].0 == k && with_components(
                slots,
                pairs,
                storage,
            )[k] == (storage, pairs[p].1),
    decreases pairs.len(),
{
    if pairs.len() > 0 {
        let front = pairs.drop_last();
        lemma_with_components(slots, front, storage, k);
        let n = pairs.len() - 1;
        if pairs[n].0 == k {
            assert(pairs[n].0 == k && with_components(slots, pairs, storage)[k] == (
                storage,
                pairs[n].1,
            ));
        } else {
            if exists|p: int| 0 <= p < pairs.len() && #[trigger] pairs[p].0 == k {
                let p = choose|p: int| 0 <= p < pairs.len() && #[trigger] pairs[p].0 == k;
                assert(front[p].0 == k);
                let q = choose|q: int|
                    0 <= q < front.len() && #[trigger] front[q].0 == k && with_components(
                        slots,
                        front,
                        storage,
                    )[k] == (storage, front[q].1);
                assert(pairs[q].0 == k);
            }
            assert forall|p: int| 0 <= p < front.len() && front[p].0 == k implies pairs[p].0
                == k by {}
        }
        assert forall|p: int| 0 <= p < pairs.len() && pairs[p].0 != k && p < n implies front[p].0
            != k by {}
    }
}

/// All archetypes of a world, with the lookup from identity to id.
///
/// Archetypes are never removed, so an id stays valid for the lifetime of the
/// collection. Lookup by identity walks the registered identities in order.
pub struct Archetypes {
    archetypes: Vec<Archetype>,
    archetype_component_count: usize,
    archetype_ids: Vec<ArchetypeIdentity>,
}

impl Archetypes {
    /// The archetypes, indexed by id.
    pub closed spec fn view(&self) -> Seq<Archetype> {
        self.archetypes@
    }

    /// The registered identities, indexed by id.
    pub closed spec fn identities(&self) -> Seq<IdentityKey> {
        Seq::new(self.archetype_ids@.len(), |i: int| self.archetype_ids@[i]@)
    }

    /// The number of archetype-component ids handed out so far.
    pub closed spec fn component_count(&self) -> usize {
        self.archetype_component_count
    }

    /// Every archetype sits at the index its id names, no identity is
    /// registered twice, and the component slots of each archetype are the
    /// ones its identity and position call for.
    pub open spec fn consistent(&self) -> bool {
        &&& self@.len() == self.identities().len()
        &&& self@.len() <= u32::MAX
        &&& self.identities().no_duplicates()
        &&& self.component_count() == slots_before(self.identities(), self@.len() as int)
        &&& self.component_count() <= u32::MAX
        &&& forall|i: int|
            0 <= i < self@.len() ==> {
                &&& (#[trigger] self@[i]).wf()
                &&& self@[i].spec_id().spec_index() == i
                &&& self@[i].slots() == identity_slots(
                    self.identities()[i],
                    slots_before(self.identities(), i),
                )
                &&& self@[i].component_order() == identity_order(
                    self.identities()[i],
                    slots_before(self.identities(), i),
                )
            }
    }

    /// Consistent, and the archetype without components is archetype 0.
    pub open spec fn wf(&self) -> bool {
        &&& self.consistent()
        &&& self@.len() >= 1
        &&& self.identities()[0] == (Seq::<ComponentId>::empty(), Seq::<ComponentId>::empty())
    }

    /// A collection that holds the empty archetype and nothing else.
    pub fn new() -> (a: Self)
        ensures
            a.wf(),
            a@.len() == 1,
            a@[0]@ == Seq::<ArchetypeEntity>::empty(),
            a@[0].spec_table_id() == TableId(0),
            a@[0].spec_edges().add_edges() == Map::<usize, AddBundle>::empty(),
            a@[0].spec_edges().remove_edges() == Map::<usize, Option<ArchetypeId>>::empty(),
            a@[0].spec_edges().remove_intersection_edges() == Map::<
                usize,
                Option<ArchetypeId>,
            >::empty(),
            a.component_count() == 0,
    {
        let mut a = Archetypes {
            archetypes: Vec::new(),
            archetype_component_count: 0,
            archetype_ids: Vec::new(),
        };
        assert(a.identities() =~= Seq::<IdentityKey>::empty());
        a.insert_new(TableId::empty(), Vec::new(), Vec::new());
        proof {
            reveal_with_fuel(slots_before, 2);
        }
        a
    }

    pub fn generation(&self) -> (g: ArchetypeGeneration)
        ensures
            g.0 == self@.len(),
    {
        ArchetypeGeneration(self.archetypes.len())
    }

    #[verifier::when_used_as_spec(spec_len)]
    pub fn len(&self) -> (n: usize)
        ensures
            n == self@.len(),
    {
        self.archetypes.len()
    }

    pub open spec fn spec_len(&self) -> usize {
        self@.len() as usize
    }

    /// The archetype without components.
    pub fn empty(&self) -> (a: &Archetype)
        requires
            self.wf(),
        ensures
            *a == self@[0],
    {
        &self.archetypes[0]
    }

    /// The archetype without components, for changing its entities or edges.
    pub fn empty_mut(&mut self) -> (a: &mut Archetype)
        requires
            old(self).wf(),
        ensures
            *a == old(self)@[0],
            final(self)@ == old(self)@.update(0, *final(a)),
            final(self).identities() == old(self).identities(),
            final(self).component_count() == old(self).component_count(),
    {
        &mut self.archetypes[0]
    }

    pub fn is_empty(&self) -> (b: bool)
        ensures
            b == (self@.len() == 0),
    {
        self.archetypes.len() == 0
    }

    pub fn get(&self, id: ArchetypeId) -> (r: Option<&Archetype>)
        ensures
            match r {
                Some(a) => id.spec_index() < self@.len() && *a == self@[id.spec_index() as int],
                None => id.spec_index() >= self@.len(),
            },
    {
        let i: usize = id.index();
        if i < self.archetypes.len() {
            Some(&self.archetypes[i])
        } else {
            None
        }
    }

    /// The archetype with the given id, which must have been issued here.
    pub fn index(&self, id: ArchetypeId) -> (a: &Archetype)
        requires
            id.spec_index() < self@.len(),
        ensures
            *a == self@[id.spec_index() as int],
    {
        &self.archetypes[id.index()]
    }

    /// The archetype with the given id, for changing its entities or edges.
    pub fn index_mut(&mut self, id: ArchetypeId) -> (a: &mut Archetype)
        requires
            id.spec_index() < old(self)@.len(),
        ensures
            *a == old(self)@[id.spec_index() as int],
            final(self)@ == old(self)@.update(id.spec_index() as int, *final(a)),
            final(self).identities() == old(self).identities(),
            final(self).component_count() == old(self).component_count(),
    {
        let i: usize = id.index();
        &mut self.archetypes[i]
    }

    /// Two different archetypes at once, for moving an entity from one to
    /// the other.
    pub fn get_2_mut(&mut self, a: ArchetypeId, b: ArchetypeId) -> (r: (
        &mut Archetype,
        &mut Archetype,
    ))
        requires
            a.spec_index() < old(self)@.len(),
            b.spec_index() < old(self)@.len(),
            a.spec_index() != b.spec_index(),
        ensures
            *r.0 == old(self)@[a.spec_index() as int],
            *r.1 == old(self)@[b.spec_index() as int],
            final(self)@ == old(self)@.update(a.spec_index() as int, *final(r.0)).update(
                b.spec_index() as int,
                *final(r.1),
            ),
            final(self).identities() == old(self).identities(),
            final(self).component_count() == old(self).component_count(),
    {
        let a_index: usize = a.index();
        let b_index: usize = b.index();
        if a_index > b_index {
            let (b_slice, a_slice) = self.archetypes.as_mut_slice().split_at_mut(a_index);
            (&mut a_slice[0], &mut b_slice[b_index])
        } else {
            let (a_slice, b_slice) = self.archetypes.as_mut_slice().split_at_mut(b_index);
            (&mut a_slice[a_index], &mut b_slice[0])
        }
    }

    /// All archetypes, in id order.
    pub fn iter(&self) -> (all: &[Archetype])
        ensures
            all@ == self@,
    {
        self.archetypes.as_slice()
    }

    /// The position at which `key` is registered, if it is.
    fn find(
        &self,
        table_components: &Vec<ComponentId>,
        sparse_set_components: &Vec<ComponentId>,
    ) -> (r: Option<usize>)
        ensures
            match r {
                Some(i) => i < self.identities().len() && self.identities()[i as int] == (
                    table_components@,
                    sparse_set_components@,
                ),
                None => !self.identities().contains((table_components@, sparse_set_components@)),
            },
    {
        let mut i: usize = 0;
        while i < self.archetype_ids.len()
            invariant
                i <= self.archetype_ids.len(),
                forall|j: int|
                    0 <= j < i ==> self.identities()[j] != (
                        table_components@,
                        sparse_set_components@,
                    ),
            decreases self.archetype_ids.len() - i,
        {
            if self.archetype_ids[i].matches(table_components, sparse_set_components) {
                return Some(i);
            }
            i += 1;
        }
        None
    }

    /// Appends the archetype for an identity that is not registered yet.
    fn insert_new(
        &mut self,
        table_id: TableId,
        table_components: Vec<ComponentId>,
        sparse_set_components: Vec<ComponentId>,
    ) -> (id: ArchetypeId)
        requires
            old(self).consistent(),
            !old(self).identities().contains((table_components@, sparse_set_components@)),
            old(self)@.len() < u32::MAX,
            old(self).component_count() + table_components@.len() + sparse_set_components@.len()
                <= u32::MAX,
        ensures
            final(self).consistent(),
            id.spec_index() == old(self)@.len(),
            final(self).identities() == old(self).identities().push(
                (table_components@, sparse_set_components@),
            ),
            final(self)@.len() == old(self)@.len() + 1,
            forall|i: int| 0 <= i < old(self)@.len() ==> final(self)@[i] == old(self)@[i],
            final(self)@.last().spec_table_id() == table_id,
            final(self)@.last()@ == Seq::<ArchetypeEntity>::empty(),
            final(self)@.last().spec_edges().add_edges() == Map::<usize, AddBundle>::empty(),
            final(self)@.last().spec_edges().remove_edges() == Map::<
                usize,
                Option<ArchetypeId>,
            >::empty(),
            final(self)@.last().spec_edges().remove_intersection_edges() == Map::<
                usize,
                Option<ArchetypeId>,
            >::empty(),
    {
        let ghost key = (table_components@, sparse_set_components@);
        let ghost old_ids = self.identities();
        let n: usize = self.archetypes.len();
        let id = ArchetypeId::new(n);
        let table_start: usize = self.archetype_component_count;
        let table_pairs = number_components(&table_components, table_start);
        let sparse_start: usize = table_start + table_components.len();
        let sparse_pairs = number_components(&sparse_set_components, sparse_start);
        self.archetype_component_count = sparse_start + sparse_set_components.len();
        let archetype = Archetype::new(id, table_id, table_pairs, sparse_pairs);
        self.archetypes.push(archetype);
        self.archetype_ids.push(
            ArchetypeIdentity::new(table_components, sparse_set_components),
        );
        proof {
            let new_ids = self.identities();
            assert(new_ids =~= old_ids.push(key));
            assert(pair_indices(table_pairs@) =~= numbered(key.0, table_start as int));
            assert(pair_indices(sparse_pairs@) =~= numbered(key.1, sparse_start as int));
            lemma_slots_before_prefix(old_ids, new_ids, n as int);
            assert forall|i: int| 0 <= i < n implies slots_before(new_ids, i) == slots_before(
                old_ids,
                i,
            ) by {
                lemma_slots_before_prefix(old_ids, new_ids, i);
            }
            assert(new_ids.no_duplicates());
        }
        id
    }

    /// Gets the id of the archetype with the given components, creating the
    /// archetype if there is none yet. The lists are sorted first, see
    /// [`sorted_set`]: the order in which components are named, and how
    /// often, makes no difference.
    ///
    /// An existing archetype is returned as it is, and `table_id` is then not
    /// looked at. A new archetype gets the next id, no entities, no cached
    /// edges, and fresh archetype-component ids: first one for each table
    /// component, then one for each sparse-set component. Nothing that was
    /// there before changes.
    ///
    /// Creating an archetype needs a free id and enough free
    /// archetype-component ids below the reserved value.
    pub fn get_id_or_insert(
        &mut self,
        table_id: TableId,
        table_components: Vec<ComponentId>,
        sparse_set_components: Vec<ComponentId>,
    ) -> (id: ArchetypeId)
        requires
            old(self).wf(),
            !old(self).identities().contains(
                sorted_key(table_components@, sparse_set_components@),
            ) ==> old(self)@.len() < u32::MAX && old(self).component_count() + sorted_set(
                table_components@,
            ).len() + sorted_set(sparse_set_components@).len() <= u32::MAX,
        ensures
            final(self).wf(),
            id.spec_index() == id_for(
                old(self).identities(),
                sorted_key(table_components@, sparse_set_components@),
            ),
            final(self).identities() == register(
                old(self).identities(),
                sorted_key(table_components@, sparse_set_components@),
            ),
            forall|i: int| 0 <= i < old(self)@.len() ==> final(self)@[i] == old(self)@[i],
            final(self)@.len() > old(self)@.len() ==> {
                &&& final(self)@.last().spec_table_id() == table_id
                &&& final(self)@.last()@ == Seq::<ArchetypeEntity>::empty()
                &&& final(self)@.last().spec_edges().add_edges() == Map::<
                    usize,
                    AddBundle,
                >::empty()
                &&& final(self)@.last().spec_edges().remove_edges() == Map::<
                    usize,
                    Option<ArchetypeId>,
                >::empty()
                &&& final(self)@.last().spec_edges().remove_intersection_edges() == Map::<
                    usize,
                    Option<ArchetypeId>,
                >::empty()
            },
    {
        let table_components = sort_ids(&table_components);
        let sparse_set_components = sort_ids(&sparse_set_components);
        match self.find(&table_components, &sparse_set_components) {
            Some(i) => {
                proof {
                    let key = (table_components@, sparse_set_components@);
                    assert(self.identities().contains(key));
                    assert(self.identities().index_of(key) == i);
                }
                ArchetypeId::new(i)
            },
            None => self.insert_new(table_id, table_components, sparse_set_components),
        }
    }

    pub fn archetype_components_len(&self) -> (n: usize)
        ensures
            n == self.component_count(),
    {
        self.archetype_component_count
    }

    /// Empties the entity list of every archetype.
    pub fn clear_entities(&mut self)
        ensures
            final(self)@.len() == old(self)@.len(),
            final(self).identities() == old(self).identities(),
            final(self).component_count() == old(self).component_count(),
            forall|i: int|
                0 <= i < final(self)@.len() ==> (#[trigger] final(self)@[i])@ == Seq::<
                    ArchetypeEntity,
                >::empty() && final(self)@[i].unchanged_but_entities(&old(self)@[i]),
    {
        let mut i: usize = 0;
        while i < self.archetypes.len()
            invariant
                i <= self.archetypes.len(),
                self@.len() == old(self)@.len(),
                self.identities() == old(self).identities(),
                self.component_count() == old(self).component_count(),
                forall|j: int|
                    0 <= j < i ==> (#[trigger] self@[j])@ == Seq::<ArchetypeEntity>::empty()
                        && self@[j].unchanged_but_entities(&old(self)@[j]),
                forall|j: int| i <= j < self@.len() ==> self@[j] == old(self)@[j],
            decreases self.archetypes.len() - i,
        {
            self.archetypes[i].clear_entities();
            i += 1;
        }
    }
}

impl Default for Archetypes {
    fn default() -> (a: Self)
        ensures
            a.wf(),
            a@.len() == 1,
            a@[0]@ == Seq::<ArchetypeEntity>::empty(),
            a@[0].spec_table_id() == TableId(0),
            a@[0].spec_edges().add_edges() == Map::<usize, AddBundle>::empty(),
            a@[0].spec_edges().remove_edges() == Map::<usize, Option<ArchetypeId>>::empty(),
            a@[0].spec_edges().remove_intersection_edges() == Map::<
                usize,
                Option<ArchetypeId>,
            >::empty(),
            a.component_count() == 0,
    {
        Archetypes::new()
    }
}

/// Pairs each component of `ids` with the archetype-component id `first`,
/// `first + 1`, and so on.
fn number_components(ids: &Vec<ComponentId>, first: usize) -> (pairs: Vec<
    (ComponentId, ArchetypeComponentId),
>)
    requires
        first + ids@.len() <= u32::MAX,
    ensures
        pairs@.len() == ids@.len(),
        forall|k: int|
            0 <= k < ids@.len() ==> (#[trigger] pairs@[k]).0 == ids@[k] && pairs@[k].1.spec_index()
                == first + k,
{
    let mut pairs: Vec<(ComponentId, ArchetypeComponentId)> = Vec::new();
    let mut k: usize = 0;
    while k < ids.len()
        invariant
            k <= ids.len(),
            first + ids@.len() <= u32::MAX,
            pairs@.len() == k,
            forall|j: int|
                0 <= j < k ==> (#[trigger] pairs@[j]).0 == ids@[j] && pairs@[j].1.spec_index()
                    == first + j,
        decreases ids.len() - k,
    {
        pairs.push((ids[k], ArchetypeComponentId::new(first + k)));
        k += 1;
    }
    pairs
}

/// Component ids in strictly increasing order.
pub open spec fn strictly_sorted(ids: Seq<ComponentId>) -> bool {
    forall|i: int, j: int| 0 <= i < j < ids.len() ==> ids[i].0 < ids[j].0
}

/// Two strictly sorted lists with the same elements are the same list.
pub proof fn lemma_sorted_lists_of_equal_sets(a: Seq<ComponentId>, b: Seq<ComponentId>)
    requires
        strictly_sorted(a),
        strictly_sorted(b),
        a.to_set() == b.to_set(),
    ensures
        a == b,
    decreases a.len(),
{
    if a.len() == 0 {
        if b.len() > 0 {
            assert(b.contains(b[0]));
            assert(a.to_set().contains(b[0]));
            assert(a.contains(b[0]));
        }
        assert(a =~= b);
    } else {
        assert(a.contains(a.last()));
        assert(b.to_set().contains(a.last()));
        assert(b.contains(a.last()));
        let j = choose|j: int| 0 <= j < b.len() && b[j] == a.last();
        assert(b.contains(b.last()));
        assert(a.to_set().contains(b.last()));
        assert(a.contains(b.last()));
        let i = choose|i: int| 0 <= i < a.len() && a[i] == b.last();
        assert(a.last() == b.last());
        let a0 = a.drop_last();
        let b0 = b.drop_last();
        assert forall|x: ComponentId| a0.to_set().contains(x) <==> b0.to_set().contains(x) by {
            if a0.contains(x) {
                let p = choose|p: int| 0 <= p < a0.len() && a0[p] == x;
                assert(a[p] == x);
                assert(a.contains(x));
                assert(b.to_set().contains(x));
                assert(b.contains(x));
                let q = choose|q: int| 0 <= q < b.len() && b[q] == x;
                assert(b0[q] == x);
            }
            if b0.contains(x) {
                let p = choose|p: int| 0 <= p < b0.len() && b0[p] == x;
                assert(b[p] == x);
                assert(b.contains(x));
                assert(a.to_set().contains(x));
                assert(a.contains(x));
                let q = choose|q: int| 0 <= q < a.len() && a[q] == x;
                assert(a0[q] == x);
            }
        }
        assert(a0.to_set() =~= b0.to_set());
        lemma_sorted_lists_of_equal_sets(a0, b0);
        assert(a =~= a0.push(a.last()));
        assert(b =~= b0.push(b.last()));
    }
}

/// The components of `ids` in increasing order, each of them once: the form
/// in which an archetype is identified.
pub open spec fn sorted_set(ids: Seq<ComponentId>) -> Seq<ComponentId>
    decreases ids.len(),
{
    if ids.len() == 0 {
        ids
    } else {
        inserted(sorted_set(ids.drop_last()), ids.last())
    }
}

/// The identity of the archetype with the given components, in whatever
/// order and however often they are named.
pub open spec fn sorted_key(
    table_components: Seq<ComponentId>,
    sparse_set_components: Seq<ComponentId>,
) -> IdentityKey {
    (sorted_set(table_components), sorted_set(sparse_set_components))
}

/// What `sorted_set` holds: the components of `ids`, in strictly increasing
/// order.
pub proof fn lemma_sorted_set(ids: Seq<ComponentId>)
    ensures
        strictly_sorted(sorted_set(ids)),
        forall|x: ComponentId| #[trigger] sorted_set(ids).contains(x) <==> ids.contains(x),
        sorted_set(ids).to_set() == ids.to_set(),
        sorted_set(ids).len() <= ids.len(),
    decreases ids.len(),
{
    if ids.len() > 0 {
        let front = ids.drop_last();
        lemma_sorted_set(front);
        lemma_inserted(sorted_set(front), ids.last());
        assert forall|x: ComponentId| #[trigger] sorted_set(ids).contains(x) <==> ids.contains(x) by {
            if ids.contains(x) {
                let i = choose|i: int| 0 <= i < ids.len() && ids[i] == x;
                if i < front.len() {
                    assert(front[i] == x);
                    assert(front.contains(x));
                }
            }
            if front.contains(x) {
                let i = choose|i: int| 0 <= i < front.len() && front[i] == x;
                assert(ids[i] == x);
            }
            assert(ids[ids.len() - 1] == ids.last());
        }
    }
    assert(sorted_set(ids).to_set() =~= ids.to_set());
}

/// A list that is strictly sorted already is its own sorted form.
pub proof fn lemma_sorted_set_of_sorted(ids: Seq<ComponentId>)
    requires
        strictly_sorted(ids),
    ensures
        sorted_set(ids) == ids,
    decreases ids.len(),
{
    if ids.len() > 0 {
        let front = ids.drop_last();
        lemma_sorted_set_of_sorted(front);
        if front.len() > 0 {
            assert(front.last() == ids[ids.len() - 2]);
        }
        assert(front.push(ids.last()) =~= ids);
    }
}

/// Computes [`sorted_set`].
pub fn sort_ids(ids: &Vec<ComponentId>) -> (sorted: Vec<ComponentId>)
    ensures
        sorted@ == sorted_set(ids@),
{
    let mut sorted: Vec<ComponentId> = Vec::new();
    let mut i: usize = 0;
    while i < ids.len()
        invariant
            i <= ids@.len(),
            sorted@ == sorted_set(ids@.take(i as int)),
        decreases ids@.len() - i,
    {
        assert(ids@.take(i + 1).drop_last() =~= ids@.take(i as int));
        sorted = insert_sorted(&sorted, ids[i]);
        i += 1;
    }
    assert(ids@.take(ids@.len() as int) =~= ids@);
    sorted
}

/// Archetype identity is unique: however many archetypes are created in
/// between, a request for the components `t2` and `s2` gets the id that an
/// earlier request for `t1` and `s1` got exactly when the two name the same
/// set of table components and the same set of sparse-set components, in
/// whatever order.
pub proof fn law_same_id_iff_same_components(
    ids: Seq<IdentityKey>,
    later: Seq<IdentityKey>,
    t1: Seq<ComponentId>,
    s1: Seq<ComponentId>,
    t2: Seq<ComponentId>,
    s2: Seq<ComponentId>,
)
    requires
        ids.no_duplicates(),
        later.no_duplicates(),
        register(ids, sorted_key(t1, s1)).is_prefix_of(later),
    ensures
        id_for(later, sorted_key(t2, s2)) == id_for(ids, sorted_key(t1, s1)) <==> t1.to_set()
            == t2.to_set() && s1.to_set() == s2.to_set(),
{
    let k1 = sorted_key(t1, s1);
    let k2 = sorted_key(t2, s2);
    law_ids_are_append_only(ids, later, k1);
    lemma_sorted_set(t1);
    lemma_sorted_set(s1);
    lemma_sorted_set(t2);
    lemma_sorted_set(s2);
    if t1.to_set() == t2.to_set() && s1.to_set() == s2.to_set() {
        lemma_sorted_lists_of_equal_sets(k1.0, k2.0);
        lemma_sorted_lists_of_equal_sets(k1.1, k2.1);
        assert(k1 == k2);
    }
}

/// Whether the identity `key`, numbered from `first`, gives component `k`
/// the archetype-component index `v`.
pub open spec fn issues(key: IdentityKey, first: int, k: usize, v: usize) -> bool {
    ||| exists|p: int| 0 <= p < key.0.len() && (#[trigger] key.0[p]).0 == k && v == first + p
    ||| exists|p: int|
        0 <= p < key.1.len() && (#[trigger] key.1[p]).0 == k && v == first + key.0.len() + p
}

/// Every component of `identity_slots(key, first)` got its index from the
/// range that starts at `first` and has one index per listed component.
pub proof fn lemma_identity_slots(key: IdentityKey, first: int, k: usize)
    requires
        0 <= first,
        first + key.0.len() + key.1.len() <= usize::MAX,
        identity_slots(key, first).contains_key(k),
    ensures
        issues(key, first, k, identity_slots(key, first)[k].1),
        first <= identity_slots(key, first)[k].1 < first + key.0.len() + key.1.len(),
{
    let table = numbered(key.0, first);
    let sparse = numbered(key.1, first + key.0.len());
    let inner = with_components(Map::empty(), table, StorageType::Table);
    lemma_with_components(inner, sparse, StorageType::SparseSet, k);
    lemma_with_components(Map::empty(), table, StorageType::Table, k);
    let v = identity_slots(key, first)[k].1;
    if exists|p: int| 0 <= p < sparse.len() && #[trigger] sparse[p].0 == k {
        let p = choose|p: int|
            0 <= p < sparse.len() && #[trigger] sparse[p].0 == k && with_components(
                inner,
                sparse,
                StorageType::SparseSet,
            )[k] == (StorageType::SparseSet, sparse[p].1);
        assert(key.1[p].0 == k && v == first + key.0.len() + p);
    } else {
        let p = choose|p: int|
            0 <= p < table.len() && #[trigger] table[p].0 == k && with_components(
                Map::empty(),
                table,
                StorageType::Table,
            )[k] == (StorageType::Table, table[p].1);
        assert(key.0[p].0 == k && v == first + p);
    }
}

impl Archetypes {
    /// The archetype-component index of component `k` in archetype `i`.
    pub open spec fn slot(&self, i: int, k: usize) -> usize {
        self@[i].slots()[k].1
    }

    /// Archetype-component ids are never shared: in a consistent collection
    /// every issued index is below `component_count()`, and two different
    /// (archetype, component) pairs never have the same index.
    pub proof fn law_component_ids_are_unique(&self, i: int, k: usize, j: int, l: usize)
        requires
            self.consistent(),
            0 <= i < self@.len(),
            0 <= j < self@.len(),
            self@[i].slots().contains_key(k),
            self@[j].slots().contains_key(l),
        ensures
            self.slot(i, k) < self.component_count(),
            self.slot(i, k) == self.slot(j, l) ==> i == j && k == l,
    {
        let ids = self.identities();
        let n = self@.len() as int;
        lemma_slots_before_monotonic(ids, i, i + 1);
        lemma_slots_before_monotonic(ids, i + 1, n);
        lemma_slots_before_monotonic(ids, j, j + 1);
        lemma_slots_before_monotonic(ids, j + 1, n);
        assert(self@[i].wf());
        assert(self@[j].wf());
        lemma_identity_slots(ids[i], slots_before(ids, i), k);
        lemma_identity_slots(ids[j], slots_before(ids, j), l);
        if i < j {
            lemma_slots_before_monotonic(ids, i + 1, j);
        } else if j < i {
            lemma_slots_before_monotonic(ids, j + 1, i);
        }
    }
}

/// `ids` with `id` put in: behind the last component with a smaller id, and
/// not at all if that place already holds `id`. For a sorted list this is
/// the sorted list with `id` added.
pub open spec fn inserted(ids: Seq<ComponentId>, id: ComponentId) -> Seq<ComponentId>
    decreases ids.len(),
{
    if ids.len() == 0 {
        seq![id]
    } else if ids.last().0 < id.0 {
        ids.push(id)
    } else if ids.last().0 == id.0 {
        ids
    } else {
        inserted(ids.drop_last(), id).push(ids.last())
    }
}

/// `ids` without every occurrence of `id`.
pub open spec fn without(ids: Seq<ComponentId>, id: ComponentId) -> Seq<ComponentId>
    decreases ids.len(),
{
    if ids.len() == 0 {
        ids
    } else if ids.last() == id {
        without(ids.drop_last(), id)
    } else {
        without(ids.drop_last(), id).push(ids.last())
    }
}

/// What `inserted` holds: `id` and the components of `ids`. It is one
/// longer than `ids` if `id` is new, and sorted if `ids` is.
pub proof fn lemma_inserted(ids: Seq<ComponentId>, id: ComponentId)
    ensures
        forall|x: ComponentId| #[trigger]
            inserted(ids, id).contains(x) <==> x == id || ids.contains(x),
        !ids.contains(id) ==> inserted(ids, id).len() == ids.len() + 1,
        inserted(ids, id).len() <= ids.len() + 1,
        strictly_sorted(ids) ==> strictly_sorted(inserted(ids, id)),
        inserted(ids, id).len() > 0,
        inserted(ids, id).last().0 == if ids.len() > 0 && ids.last().0 > id.0 {
            ids.last().0
        } else {
            id.0
        },
    decreases ids.len(),
{
    let result = inserted(ids, id);
    if ids.len() == 0 {
        assert(result[0] == id);
        assert forall|x: ComponentId| #[trigger] result.contains(x) <==> x == id || ids.contains(
            x,
        ) by {
            if result.contains(x) {
                let i = choose|i: int| 0 <= i < result.len() && result[i] == x;
            }
        }
    } else if ids.last().0 < id.0 {
        assert forall|x: ComponentId| #[trigger] result.contains(x) <==> x == id || ids.contains(
            x,
        ) by {
            if result.contains(x) {
                let i = choose|i: int| 0 <= i < result.len() && result[i] == x;
                if i < ids.len() {
                    assert(ids[i] == x);
                }
            }
            if ids.contains(x) {
                let i = choose|i: int| 0 <= i < ids.len() && ids[i] == x;
                assert(result[i] == x);
            }
            assert(result[ids.len() as int] == id);
        }
        if ids.contains(id) {
            let i = choose|i: int| 0 <= i < ids.len() && ids[i] == id;
        }
    } else if ids.last().0 == id.0 {
        assert(ids[ids.len() - 1] == id);
    } else {
        let front = ids.drop_last();
        let inner = inserted(front, id);
        lemma_inserted(front, id);
        assert forall|x: ComponentId| #[trigger] result.contains(x) <==> x == id || ids.contains(
            x,
        ) by {
            if result.contains(x) {
                let i = choose|i: int| 0 <= i < result.len() && result[i] == x;
                if i < inner.len() {
                    assert(inner[i] == x);
                    assert(inner.contains(x));
                    if front.contains(x) {
                        let j = choose|j: int| 0 <= j < front.len() && front[j] == x;
                        assert(ids[j] == x);
                    }
                } else {
                    assert(ids[ids.len() - 1] == x);
                }
            }
            if ids.contains(x) {
                let i = choose|i: int| 0 <= i < ids.len() && ids[i] == x;
                if i < front.len() {
                    assert(front[i] == x);
                    assert(inner.contains(x));
                    let j = choose|j: int| 0 <= j < inner.len() && inner[j] == x;
                    assert(result[j] == x);
                } else {
                    assert(result[inner.len() as int] == x);
                }
            }
            assert(inner.contains(id));
            let j = choose|j: int| 0 <= j < inner.len() && inner[j] == id;
            assert(result[j] == id);
        }
        if !ids.contains(id) {
            if front.contains(id) {
                let j = choose|j: int| 0 <= j < front.len() && front[j] == id;
                assert(ids[j] == id);
            }
        }
        if strictly_sorted(ids) {
            assert(strictly_sorted(front)) by {
                assert forall|i: int, j: int| 0 <= i < j < front.len() implies front[i].0
                    < front[j].0 by {
                    assert(ids[i].0 < ids[j].0);
                }
            }
            assert forall|i: int, j: int| 0 <= i < j < result.len() implies result[i].0
                < result[j].0 by {
                if j < inner.len() {
                    assert(inner[i].0 < inner[j].0);
                } else {
                    // every component of `inner` is below the last component of `ids`
                    assert(inner[i].0 <= inner.last().0) by {
                        if i < inner.len() - 1 {
                            assert(inner[i].0 < inner[inner.len() - 1].0);
                        }
                    }
                    if front.len() > 0 {
                        assert(ids[front.len() - 1].0 < ids[ids.len() - 1].0);
                    }
                }
            }
        }
    }
}

/// What `without` holds: the components of `ids` but `id`, in their order.
pub proof fn lemma_without(ids: Seq<ComponentId>, id: ComponentId)
    ensures
        forall|x: ComponentId| #[trigger]
            without(ids, id).contains(x) <==> x != id && ids.contains(x),
        ids.contains(id) ==> without(ids, id).len() < ids.len(),
        without(ids, id).len() <= ids.len(),
        strictly_sorted(ids) ==> strictly_sorted(without(ids, id)),
    decreases ids.len(),
{
    let result = without(ids, id);
    if ids.len() > 0 {
        let front = ids.drop_last();
        let inner = without(front, id);
        lemma_without(front, id);
        assert forall|x: ComponentId| #[trigger] result.contains(x) <==> x != id && ids.contains(
            x,
        ) by {
            if result.contains(x) {
                let i = choose|i: int| 0 <= i < result.len() && result[i] == x;
                if i < inner.len() {
                    assert(inner[i] == x);
                    assert(inner.contains(x));
                    let j = choose|j: int| 0 <= j < front.len() && front[j] == x;
                    assert(ids[j] == x);
                } else {
                    assert(ids[ids.len() - 1] == x);
                }
            }
            if x != id && ids.contains(x) {
                let i = choose|i: int| 0 <= i < ids.len() && ids[i] == x;
                if i < front.len() {
                    assert(front[i] == x);
                    assert(inner.contains(x));
                    let j = choose|j: int| 0 <= j < inner.len() && inner[j] == x;
                    assert(result[j] == x);
                } else {
                    assert(result[inner.len() as int] == x);
                }
            }
        }
        if ids.contains(id) && ids.last() != id {
            let i = choose|i: int| 0 <= i < ids.len() && ids[i] == id;
            assert(front[i] == id);
        }
        if strictly_sorted(ids) {
            assert(strictly_sorted(front)) by {
                assert forall|i: int, j: int| 0 <= i < j < front.len() implies front[i].0
                    < front[j].0 by {
                    assert(ids[i].0 < ids[j].0);
                }
            }
            assert forall|i: int, j: int| 0 <= i < j < result.len() implies result[i].0
                < result[j].0 by {
                if j < inner.len() {
                    assert(inner[i].0 < inner[j].0);
                } else {
                    // every component of `inner` is one of `front`, and so below the last
                    assert(inner.contains(inner[i]));
                    assert(front.contains(inner[i]));
                    let m = choose|m: int| 0 <= m < front.len() && front[m] == inner[i];
                    assert(ids[m].0 < ids[ids.len() - 1].0);
                }
            }
        }
    }
}

/// Computes [`inserted`].
pub fn insert_sorted(ids: &Vec<ComponentId>, id: ComponentId) -> (result: Vec<ComponentId>)
    ensures
        result@ == inserted(ids@, id),
{
    // the components behind the place of `id`
    let mut n: usize = ids.len();
    while n > 0 && ids[n - 1].0 > id.0
        invariant
            n <= ids@.len(),
            forall|i: int| n <= i < ids@.len() ==> ids@[i].0 > id.0,
        decreases n,
    {
        n -= 1;
    }
    let mut result: Vec<ComponentId> = Vec::new();
    let mut i: usize = 0;
    while i < n
        invariant
            i <= n <= ids@.len(),
            result@ == ids@.take(i as int),
        decreases n - i,
    {
        result.push(ids[i]);
        assert(result@ =~= ids@.take(i + 1));
        i += 1;
    }
    if n == 0 || ids[n - 1].0 < id.0 {
        result.push(id);
    }
    proof {
        lemma_inserted_at(ids@, id, n as int);
    }
    let ghost head = result@;
    while i < ids.len()
        invariant
            n <= i <= ids@.len(),
            result@ == head + ids@.subrange(n as int, i as int),
        decreases ids@.len() - i,
    {
        result.push(ids[i]);
        assert(result@ =~= head + ids@.subrange(n as int, i + 1));
        i += 1;
    }
    result
}

/// Where `inserted` puts `id`: behind the first `n` components, when those
/// behind them are all larger and the `n`-th is not.
proof fn lemma_inserted_at(ids: Seq<ComponentId>, id: ComponentId, n: int)
    requires
        0 <= n <= ids.len(),
        forall|i: int| n <= i < ids.len() ==> ids[i].0 > id.0,
        n > 0 ==> ids[n - 1].0 <= id.0,
    ensures
        inserted(ids, id) == if n == 0 || ids[n - 1].0 < id.0 {
            ids.take(n).push(id) + ids.subrange(n, ids.len() as int)
        } else {
            ids.take(n) + ids.subrange(n, ids.len() as int)
        },
    decreases ids.len() - n,
{
    if n == ids.len() {
        assert(ids.take(n) =~= ids);
        assert(ids.subrange(n, ids.len() as int) =~= Seq::<ComponentId>::empty());
        if n == 0 {
            assert(inserted(ids, id) =~= ids.take(n).push(id) + ids.subrange(n, ids.len() as int));
        } else if ids[n - 1].0 < id.0 {
            assert(inserted(ids, id) =~= ids.take(n).push(id) + ids.subrange(n, ids.len() as int));
        } else {
            assert(ids.last().0 == id.0);
            assert(inserted(ids, id) =~= ids.take(n) + ids.subrange(n, ids.len() as int));
        }
    } else {
        let front = ids.drop_last();
        lemma_inserted_at(front, id, n);
        assert(ids.last().0 > id.0);
        assert(front.take(n) =~= ids.take(n));
        assert(front.subrange(n, front.len() as int).push(ids.last()) =~= ids.subrange(
            n,
            ids.len() as int,
        ));
        if n == 0 || ids[n - 1].0 < id.0 {
            assert(inserted(ids, id) =~= ids.take(n).push(id) + ids.subrange(n, ids.len() as int));
        } else {
            assert(inserted(ids, id) =~= ids.take(n) + ids.subrange(n, ids.len() as int));
        }
    }
}

/// Computes [`without`].
pub fn remove_sorted(ids: &Vec<ComponentId>, id: ComponentId) -> (result: Vec<ComponentId>)
    ensures
        result@ == without(ids@, id),
{
    let mut result: Vec<ComponentId> = Vec::with_capacity(ids.len());
    let mut i: usize = 0;
    while i < ids.len()
        invariant
            i <= ids@.len(),
            result@ == without(ids@.take(i as int), id),
        decreases ids@.len() - i,
    {
        assert(ids@.take(i + 1).drop_last() =~= ids@.take(i as int));
        if ids[i] != id {
            result.push(ids[i]);
        }
        i += 1;
    }
    assert(ids@.take(ids@.len() as int) =~= ids@);
    result
}

impl ArchetypeIdentity {
    /// The table components, in the order in which they were given.
    pub fn table_components(&self) -> (ids: &Vec<ComponentId>)
        ensures
            ids@ == self@.0,
    {
        &self.table_components
    }

    /// The sparse-set components, in the order in which they were given.
    pub fn sparse_set_components(&self) -> (ids: &Vec<ComponentId>)
        ensures
            ids@ == self@.1,
    {
        &self.sparse_set_components
    }
}

impl Archetypes {
    /// The identity of the archetype with the given id, which must have
    /// been issued here.
    pub fn identity(&self, id: ArchetypeId) -> (identity: &ArchetypeIdentity)
        requires
            id.spec_index() < self.identities().len(),
        ensures
            identity@ == self.identities()[id.spec_index() as int],
    {
        &self.archetype_ids[id.index()]
    }
}

/// Which components an archetype has, from its identity: the components of
/// its two lists.
pub proof fn lemma_identity_slots_dom(key: IdentityKey, first: int, k: usize)
    ensures
        identity_slots(key, first).contains_key(k) <==> key.0.contains(ComponentId(k))
            || key.1.contains(ComponentId(k)),
        identity_slots(key, first).contains_key(k) && !key.1.contains(ComponentId(k))
            ==> identity_slots(key, first)[k].0 == StorageType::Table,
        key.1.contains(ComponentId(k)) ==> identity_slots(key, first)[k].0
            == StorageType::SparseSet,
{
    let table = numbered(key.0, first);
    let sparse = numbered(key.1, first + key.0.len());
    let inner = with_components(Map::empty(), table, StorageType::Table);
    lemma_with_components(inner, sparse, StorageType::SparseSet, k);
    lemma_with_components(Map::empty(), table, StorageType::Table, k);
    if key.0.contains(ComponentId(k)) {
        let p = choose|p: int| 0 <= p < key.0.len() && key.0[p] == ComponentId(k);
        assert(table[p].0 == k);
    }
    if key.1.contains(ComponentId(k)) {
        let p = choose|p: int| 0 <= p < key.1.len() && key.1[p] == ComponentId(k);
        assert(sparse[p].0 == k);
    }
    if exists|p: int| 0 <= p < table.len() && #[trigger] table[p].0 == k {
        let p = choose|p: int| 0 <= p < table.len() && #[trigger] table[p].0 == k;
        assert(key.0[p] == ComponentId(k));
    }
    if exists|p: int| 0 <= p < sparse.len() && #[trigger] sparse[p].0 == k {
        let p = choose|p: int| 0 <= p < sparse.len() && #[trigger] sparse[p].0 == k;
        assert(key.1[p] == ComponentId(k));
    }
}

} // verus!
