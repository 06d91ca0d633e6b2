//! Removing bundles: the cache of remove-bundle edges, and the move of an
//! entity to the archetype without the bundle's components.

use crate::archetype::{lemma_without, remove_sorted, without, ArchetypeId, IdentityKey};
use crate::bundle::BundleId;
use crate::component::ComponentId;
use crate::entity::Entity;
use crate::registry::lemma_register_extends;
use crate::storage::table::{missing_before, moved_cell, Table};
use crate::world::moves::moved_to;
use crate::world::spawn::copy_ids;
use crate::world::{
    has_component, lemma_without_bundle_filed, lemma_without_bundle_sorted, without_bundle, World,
};
use vstd::prelude::*;

verus! {

/// What `without_bundle` holds: the components of the archetype that are not
/// among the first `n` components of the bundle.
pub proof fn lemma_without_bundle(key: IdentityKey, bundle: Seq<ComponentId>, n: int)
    requires
        0 <= n <= bundle.len(),
    ensures
        forall|x: ComponentId| #[trigger]
            without_bundle(key, bundle, n).0.contains(x) <==> key.0.contains(x) && !bundle.take(
                n,
            ).contains(x),
        forall|x: ComponentId| #[trigger]
            without_bundle(key, bundle, n).1.contains(x) <==> key.1.contains(x) && !bundle.take(
                n,
            ).contains(x),
        without_bundle(key, bundle, n).0.len() <= key.0.len(),
        without_bundle(key, bundle, n).1.len() <= key.1.len(),
    decreases n,
{
    if n > 0 {
        let before = without_bundle(key, bundle, n - 1);
        let id = bundle[n - 1];
        lemma_without_bundle(key, bundle, n - 1);
        lemma_without(before.0, id);
        lemma_without(before.1, id);
        let prefix = bundle.take(n - 1);
        let taken = bundle.take(n);
        assert(taken[n - 1] == id);
        assert forall|x: ComponentId| taken.contains(x) <==> prefix.contains(x) || x == id by {
            if prefix.contains(x) {
                let i = choose|i: int| 0 <= i < prefix.len() && prefix[i] == x;
                assert(taken[i] == x);
            }
            if taken.contains(x) {
                let i = choose|i: int| 0 <= i < taken.len() && taken[i] == x;
                if i < n - 1 {
                    assert(prefix[i] == x);
                }
            }
        }
    } else {
        assert(bundle.take(0).len() == 0);
    }
}

/// Removing components that the archetype does not have leads to the
/// archetype itself.
pub proof fn law_absent_bundle_keeps_the_archetype(key: IdentityKey, bundle: Seq<ComponentId>, n: int)
    requires
        0 <= n <= bundle.len(),
        forall|i: int| 0 <= i < n ==> !has_component(key, #[trigger] bundle[i]),
    ensures
        without_bundle(key, bundle, n) == key,
    decreases n,
{
    if n > 0 {
        law_absent_bundle_keeps_the_archetype(key, bundle, n - 1);
        assert(!has_component(key, bundle[n - 1]));
        lemma_without_absent(key.0, bundle[n - 1]);
        lemma_without_absent(key.1, bundle[n - 1]);
    }
}

/// `without` leaves a list that does not hold `id` as it is.
pub proof fn lemma_without_absent(ids: Seq<ComponentId>, id: ComponentId)
    requires
        !ids.contains(id),
    ensures
        without(ids, id) == ids,
    decreases ids.len(),
{
    if ids.len() > 0 {
        assert(ids.last() == ids[ids.len() - 1]);
        assert forall|x: ComponentId| ids.drop_last().contains(x) implies ids.contains(x) by {
            let i = choose|i: int| 0 <= i < ids.drop_last().len() && ids.drop_last()[i] == x;
            assert(ids[i] == x);
        }
        lemma_without_absent(ids.drop_last(), id);
        assert(ids.drop_last().push(ids.last()) =~= ids);
    }
}

/// Removing a bundle that holds every component of the archetype leads to
/// the archetype without components.
pub proof fn law_removing_everything_leaves_nothing(key: IdentityKey, bundle: Seq<ComponentId>)
    requires
        forall|x: ComponentId| has_component(key, x) ==> bundle.contains(x),
    ensures
        without_bundle(key, bundle, bundle.len() as int) == (
            Seq::<ComponentId>::empty(),
            Seq::<ComponentId>::empty(),
        ),
{
    let left = without_bundle(key, bundle, bundle.len() as int);
    lemma_without_bundle(key, bundle, bundle.len() as int);
    assert(bundle.take(bundle.len() as int) =~= bundle);
    if left.0.len() > 0 {
        assert(left.0.contains(left.0[0]));
        assert(has_component(key, left.0[0]));
    }
    if left.1.len() > 0 {
        assert(left.1.contains(left.1[0]));
        assert(has_component(key, left.1[0]));
    }
    assert(left.0 =~= Seq::<ComponentId>::empty());
    assert(left.1 =~= Seq::<ComponentId>::empty());
}

/// A table whose columns are all columns of `src` needs no added values.
pub proof fn lemma_nothing_missing(src: &Table, dst_ids: Seq<usize>, n: int)
    requires
        0 <= n <= dst_ids.len(),
        forall|j: int| 0 <= j < dst_ids.len() ==> src.has(#[trigger] dst_ids[j]),
    ensures
        missing_before(src, dst_ids, n) == 0,
    decreases n,
{
    if n > 0 {
        lemma_nothing_missing(src, dst_ids, n - 1);
    }
}

impl World {
    /// The archetype that an entity of the archetype `archetype_id` moves
    /// to when the components of the bundle `bundle_id` that it has are
    /// removed: read from the cache of edges if it is there, and otherwise
    /// computed from the components of the archetype and of the bundle,
    /// created if it does not exist yet, and put into the cache for the next
    /// time.
    ///
    /// Entities, their locations and all values stay as they are.
    pub fn remove_bundle_target(
        &mut self,
        archetype_id: ArchetypeId,
        bundle_id: BundleId,
    ) -> (target: ArchetypeId)
        requires
            old(self).wf(),
            archetype_id.spec_index() < old(self).archetypes@.len(),
            bundle_id.0 < old(self).bundles@.len(),
            !old(self).archetypes.identities().contains(
                without_bundle(
                    old(self).archetypes.identities()[archetype_id.spec_index() as int],
                    old(self).bundles@[bundle_id.0 as int],
                    old(self).bundles@[bundle_id.0 as int].len() as int,
                ),
            ) ==> old(self).archetypes@.len() < u32::MAX && old(self).archetypes.component_count()
                + old(self).archetypes.identities()[archetype_id.spec_index() as int].0.len()
                + old(self).archetypes.identities()[archetype_id.spec_index() as int].1.len()
                <= u32::MAX,
        ensures
            final(self).wf(),
            target.spec_index() < final(self).archetypes@.len(),
            final(self).archetypes.identities()[target.spec_index() as int] == without_bundle(
                old(self).archetypes.identities()[archetype_id.spec_index() as int],
                old(self).bundles@[bundle_id.0 as int],
                old(self).bundles@[bundle_id.0 as int].len() as int,
            ),
            final(self).archetypes@[archetype_id.spec_index() as int].spec_edges(
                ).remove_intersection_edges().contains_key(
                bundle_id.0,
            ),
            final(self).archetypes@[archetype_id.spec_index() as int].spec_edges(
                ).remove_intersection_edges()[bundle_id.0]
                matches Some(cached) && cached.spec_index() == target.spec_index(),
            final(self).components == old(self).components,
            final(self).bundles == old(self).bundles,
            final(self).entities == old(self).entities,
            final(self).storages.resources == old(self).storages.resources,
            final(self).storages.sparse_sets == old(self).storages.sparse_sets,
            old(self).archetypes.identities().is_prefix_of(final(self).archetypes.identities()),
            old(self).storages.tables.keys().is_prefix_of(final(self).storages.tables.keys()),
            forall|a: int|
                0 <= a < old(self).archetypes@.len() ==> (#[trigger] final(self).archetypes@[a])@
                    == old(self).archetypes@[a]@ && final(self).table_of(a) == old(self).table_of(a),
            forall|a: int|
                old(self).archetypes@.len() <= a < final(self).archetypes@.len() ==> (
                #[trigger] final(self).archetypes@[a])@.len() == 0,
            forall|t: int|
                0 <= t < old(self).storages.tables@.len()
                    ==> #[trigger] final(self).storages.tables@[t] == old(self).storages.tables@[t],
            forall|t: int|
                old(self).storages.tables@.len() <= t < final(self).storages.tables@.len() ==> (
                #[trigger] final(self).storages.tables@[t])@.len() == 0,
    {
        let ghost before = *old(self);
        let ghost a = archetype_id.spec_index() as int;
        let ghost key = before.archetypes.identities()[a];
        let ghost bundle = before.bundles@[bundle_id.0 as int];
        let cached: Option<Option<ArchetypeId>> = self.archetypes.index(
            archetype_id,
        ).edges().get_remove_bundle_intersection(bundle_id);
        match cached {
            Some(edge) => {
                proof {
                    assert(before.remove_edge_valid(a, bundle_id.0));
                }
                match edge {
                    Some(target) => {
                        return target;
                    },
                    None => {
                        proof {
                            assert(false);
                        }
                    },
                }
            },
            None => {},
        }
        // the slow path: the components of the archetype without those of the bundle
        let info = match self.bundles.get(bundle_id) {
            Some(info) => info,
            None => vstd::pervasive::unreached(),
        };
        let identity = self.archetypes.identity(archetype_id);
        let mut table_components = copy_ids(identity.table_components());
        let mut sparse_set_components = copy_ids(identity.sparse_set_components());
        let mut i: usize = 0;
        while i < info.components().len()
            invariant
                i <= bundle.len(),
                info@ == bundle,
                (table_components@, sparse_set_components@) == without_bundle(key, bundle, i as int),
            decreases bundle.len() - i,
        {
            let id = info.components()[i];
            table_components = remove_sorted(&table_components, id);
            sparse_set_components = remove_sorted(&sparse_set_components, id);
            i += 1;
        }
        proof {
            lemma_without_bundle(key, bundle, bundle.len() as int);
            assert(before.archetypes.identities()[a] == key);
            lemma_without_bundle_filed(key, bundle, before.components@, bundle.len() as int);
            lemma_without_bundle_sorted(key, bundle, bundle.len() as int);
        }
        let ghost target_key = (table_components@, sparse_set_components@);
        let target = self.archetype_for_sorted(table_components, sparse_set_components);
        let ghost middle = *self;
        proof {
            lemma_register_extends(before.archetypes.identities(), target_key);
            lemma_register_extends(before.storages.tables.keys(), target_key.0);
        }
        self.archetypes.index_mut(archetype_id).edges_mut().insert_remove_bundle_intersection(
            bundle_id,
            Some(target),
        );
        proof {
            let after = *self;
            assert(after.archetypes.identities() == middle.archetypes.identities());
            assert forall|c: int| 0 <= c < after.archetypes@.len() implies (
            #[trigger] after.archetypes@[c])@ == middle.archetypes@[c]@ && after.table_of(c)
                == middle.table_of(c) && after.archetypes@[c].wf() == middle.archetypes@[c].wf()
                && after.archetypes@[c].spec_id() == middle.archetypes@[c].spec_id()
                && after.archetypes@[c].slots() == middle.archetypes@[c].slots()
                && after.archetypes@[c].component_order()
                == middle.archetypes@[c].component_order() by {}
            assert(after.archetypes.wf()) by {
                assert forall|c: int| 0 <= c < after.archetypes@.len() implies (
                #[trigger] after.archetypes@[c]).wf() by {
                    assert(middle.archetypes@[c].wf());
                }
            }
            assert forall|c: int| 0 <= c < after.archetypes@.len() implies 0
                <= #[trigger] after.table_of(c) < after.storages.tables@.len()
                && after.storages.tables.keys()[after.table_of(c)]
                == after.archetypes.identities()[c].0 by {
                assert(0 <= middle.table_of(c) < middle.storages.tables@.len());
            }
            assert forall|c: int, j: int|
                0 <= c < after.archetypes@.len() && 0 <= j
                    < after.archetypes@[c]@.len() implies #[trigger] after.entry_consistent(
                c,
                j,
            ) by {
                assert(middle.entry_consistent(c, j));
            }
            assert forall|t: int, r: int|
                0 <= t < after.storages.tables@.len() && 0 <= r
                    < after.storages.tables@[t]@.len() implies #[trigger] after.row_consistent(
                t,
                r,
            ) by {
                assert(middle.row_consistent(t, r));
                let location = middle.entities.location_of(middle.storages.tables@[t]@[r])->0;
                let c = location.archetype_id.spec_index() as int;
                assert(after.archetypes@[c]@ == middle.archetypes@[c]@);
            }
            assert forall|slot: int| 0 <= slot
                < after.entities@.len() implies #[trigger] after.location_consistent(
                slot,
            ) by {
                assert(middle.location_consistent(slot));
                if middle.entities@[slot].live && middle.entities@[slot].location is Some {
                    let c = middle.entities@[slot].location->0.archetype_id.spec_index() as int;
                    assert(after.archetypes@[c]@ == middle.archetypes@[c]@);
                }
            }
            assert forall|c: int, b: usize|
                0 <= c < after.archetypes@.len()
                    && after.archetypes@[c].spec_edges().add_edges().contains_key(
                    b,
                ) implies #[trigger] after.add_edge_valid(c, b) by {
                assert(middle.add_edge_valid(c, b));
            }
            assert forall|c: int, b: usize|
                0 <= c < after.archetypes@.len()
                    && after.archetypes@[c].spec_edges().remove_intersection_edges().contains_key(
                    b,
                ) implies #[trigger] after.remove_edge_valid(c, b) by {
                if c == a && b == bundle_id.0 {
                    assert(after.archetypes.identities()[a] == key);
                } else {
                    assert(middle.archetypes@[c].spec_edges().remove_intersection_edges().contains_key(
                        b,
                    ));
                    assert(middle.remove_edge_valid(c, b));
                }
            }
            assert forall|c: int|
                before.archetypes@.len() <= c < after.archetypes@.len() implies (
            #[trigger] after.archetypes@[c])@.len() == 0 by {
                assert(middle.archetypes@[c] == middle.archetypes@.last());
            }
            assert forall|t: int|
                before.storages.tables@.len() <= t < after.storages.tables@.len() implies (
            #[trigger] after.storages.tables@[t])@.len() == 0 by {
                assert(after.storages.tables@[t] == middle.storages.tables@.last());
            }
        }
        target
    }
}

/// What the move of an entity to an archetype with fewer table components
/// has done to the values of the entity: the values of the table components
/// that are left are still with it.
proof fn lemma_remove_moved(w1: &World, w2: &World, entity: Entity, target_key: IdentityKey, id: ComponentId)
    requires
        w1.wf(),
        w2.wf(),
        w1.entities.location_of(entity) is Some,
        w2.entities.location_of(entity) is Some,
        target_key.0.contains(id),
        ({
            let location = w1.entities.location_of(entity)->0;
            let a = location.archetype_id.spec_index() as int;
            let key = w1.archetypes.identities()[a];
            let t0 = w1.table_of(a);
            let row0 = w1.archetypes@[a]@[location.index as int].table_row as int;
            let l2 = w2.entities.location_of(entity)->0;
            let b = l2.archetype_id.spec_index() as int;
            let t1 = w1.table_of(b);
            &&& 0 <= a < w1.archetypes@.len()
            &&& 0 <= b < w1.archetypes@.len()
            &&& w1.archetypes@.len() == w2.archetypes@.len()
            &&& w1.archetypes.identities()[b] == target_key
            &&& w2.archetypes.identities()[b] == target_key
            &&& w2.table_of(b) == t1
            &&& forall|x: ComponentId| target_key.0.contains(x) ==> key.0.contains(x)
            &&& b == a ==> *w2 == *w1
            &&& b != a && t1 == t0 ==> w2.storages.tables@ == w1.storages.tables@ && moved_to(
                w1,
                w2,
                entity,
                a,
                location.index as int,
                b,
            )
            &&& b != a && t1 != t0 ==> {
                let src = w1.storages.tables@[t0];
                let dst = w1.storages.tables@[t1];
                &&& moved_to(w1, w2, entity, a, location.index as int, b)
                &&& forall|j: int|
                    0 <= j < dst.column_cells().len() ==> #[trigger] w2.storages.tables@[t1].column_cells()[j]
                        == dst.column_cells()[j].push(
                        moved_cell(&src, dst.column_ids(), Seq::empty(), row0, j, 0),
                    )
            }
        }),
    ensures
        ({
            let location = w1.entities.location_of(entity)->0;
            let a = location.archetype_id.spec_index() as int;
            let l2 = w2.entities.location_of(entity)->0;
            let b = l2.archetype_id.spec_index() as int;
            w2.storages.tables@[w2.table_of(b)].cells_of(
                id.0,
            )[w2.archetypes@[b]@[l2.index as int].table_row as int]
                == w1.storages.tables@[w1.table_of(a)].cells_of(
                id.0,
            )[w1.archetypes@[a]@[location.index as int].table_row as int]
        }),
{
    let location = w1.entities.location_of(entity)->0;
    let a = location.archetype_id.spec_index() as int;
    let key = w1.archetypes.identities()[a];
    let t0 = w1.table_of(a);
    let row0 = w1.archetypes@[a]@[location.index as int].table_row as int;
    let l2 = w2.entities.location_of(entity)->0;
    let b = l2.archetype_id.spec_index() as int;
    let t1 = w1.table_of(b);
    let row2 = w2.archetypes@[b]@[l2.index as int].table_row as int;
    assert(w1.location_consistent(entity.index as int));
    assert(w2.location_consistent(entity.index as int));
    assert(w1.entry_consistent(a, location.index as int));
    assert(w2.entry_consistent(b, l2.index as int));
    assert(0 <= w1.table_of(a) < w1.storages.tables@.len());
    assert(0 <= w1.table_of(b) < w1.storages.tables@.len());
    assert(0 <= w2.table_of(b) < w2.storages.tables@.len());
    assert(w1.storages.tables.keys()[t0] == key.0);
    assert(w1.storages.tables.keys()[t1] == target_key.0);
    let src = w1.storages.tables@[t0];
    let dst = w1.storages.tables@[t1];
    assert(src.wf() && dst.wf() && w2.storages.tables@[t1].wf());
    src.lemma_wf();
    dst.lemma_wf();
    w2.storages.tables@[t1].lemma_wf();
    assert(ComponentId(id.0) == id);
    assert(src.has(id.0) <==> key.0.contains(ComponentId(id.0)));
    assert(dst.has(id.0) <==> target_key.0.contains(ComponentId(id.0)));
    if b == a {
    } else if t1 == t0 {
        assert(row2 == row0);
    } else {
        let j = choose|j: int| 0 <= j < dst.column_ids().len() && dst.column_ids()[j] == id.0;
        assert(w2.storages.tables@[t1].column_cells()[j] == dst.column_cells()[j].push(
            moved_cell(&src, dst.column_ids(), Seq::empty(), row0, j, 0),
        ));
        assert(w2.storages.tables@[t1].cells_of(id.0) == w2.storages.tables@[t1].column_cells()[j]);
        assert(dst.cells_of(id.0) == dst.column_cells()[j]);
        assert(row2 == dst@.len());
    }
}

impl World {
    /// Removes from `entity` the components of the bundle `bundle_id` that
    /// it has, and drops their values. An entity that is not live or not
    /// placed is refused and nothing changes.
    ///
    /// The entity moves to the archetype that has the components of its
    /// archetype but those of the bundle, see [`without_bundle`]; that
    /// archetype is found through the cache of edges, see
    /// [`World::remove_bundle_target`]. If the entity has none of the
    /// components it stays where it is, and if it has no others it moves to
    /// the empty archetype. All other values of the entity stay with it,
    /// and the values of all other entities stay with them.
    pub fn remove_bundle(&mut self, entity: Entity, bundle_id: BundleId) -> (done: bool)
        requires
            old(self).wf(),
            bundle_id.0 < old(self).bundles@.len(),
            old(self).entities.location_of(entity) matches Some(location)
                ==> (!old(self).archetypes.identities().contains(
                without_bundle(
                    old(self).archetypes.identities()[location.archetype_id.spec_index() as int],
                    old(self).bundles@[bundle_id.0 as int],
                    old(self).bundles@[bundle_id.0 as int].len() as int,
                ),
            ) ==> old(self).archetypes@.len() < u32::MAX && old(self).archetypes.component_count()
                + old(self).archetypes.identities()[location.archetype_id.spec_index() as int].0.len()
                + old(self).archetypes.identities()[location.archetype_id.spec_index() as int].1.len()
                <= u32::MAX),
        ensures
            final(self).wf(),
            done == old(self).entities.location_of(entity) is Some,
            !done ==> *final(self) == *old(self),
            final(self).components == old(self).components,
            final(self).bundles == old(self).bundles,
            final(self).storages.resources == old(self).storages.resources,
            old(self).archetypes.identities().is_prefix_of(final(self).archetypes.identities()),
            old(self).entities.location_of(entity) matches Some(before)
                ==> final(self).entities.location_of(entity) matches Some(after)
                    && final(self).archetypes.identities()[after.archetype_id.spec_index() as int]
                        == without_bundle(
                old(self).archetypes.identities()[before.archetype_id.spec_index() as int],
                old(self).bundles@[bundle_id.0 as int],
                old(self).bundles@[bundle_id.0 as int].len() as int,
            ),
            forall|other: Entity|
                old(self).entities.is_live(other) == #[trigger] final(self).entities.is_live(other),
            old(self).entities.location_of(entity) is Some ==> forall|id: ComponentId| #[trigger]
                final(self).cell_of(entity, id) == if old(self).bundles@[bundle_id.0 as int].contains(
                    id,
                ) {
                    None
                } else {
                    old(self).cell_of(entity, id)
                },
            forall|other: Entity, id: ComponentId|
                other != entity ==> #[trigger] final(self).cell_of(other, id) == old(self).cell_of(
                    other,
                    id,
                ),
            old(self).entities.location_of(entity) matches Some(before) ==> {
                let key = old(self).archetypes.identities()[before.archetype_id.spec_index() as int];
                let bundle = old(self).bundles@[bundle_id.0 as int];
                let target_key = without_bundle(key, bundle, bundle.len() as int);
                &&& target_key == key ==> final(self).entities.location_of(entity) == Some(before)
                &&& target_key.0 == key.0 ==> final(self).row_of(entity) == old(self).row_of(entity)
                &&& target_key == (Seq::<ComponentId>::empty(), Seq::<ComponentId>::empty())
                    ==> final(self).entities.location_of(entity)->0.archetype_id.spec_index() == 0
            },
    {
        let location = match self.entities.get(entity) {
            Some(location) => location,
            None => {
                return false;
            },
        };
        let ghost w0 = *old(self);
        let ghost a = location.archetype_id.spec_index() as int;
        let ghost key = w0.archetypes.identities()[a];
        let ghost bundle = w0.bundles@[bundle_id.0 as int];
        let ghost target_key = without_bundle(key, bundle, bundle.len() as int);
        proof {
            assert(w0.location_consistent(entity.index as int));
            assert(w0.entry_consistent(a, location.index as int));
            assert(0 <= w0.table_of(a) < w0.storages.tables@.len());
            w0.bundles.lemma_wf();
            lemma_without_bundle(key, bundle, bundle.len() as int);
            assert(bundle.take(bundle.len() as int) =~= bundle);
        }
        let source = location.archetype_id;
        let target = self.remove_bundle_target(source, bundle_id);
        let ghost w1 = *self;
        let ghost b = target.spec_index() as int;
        proof {
            w1.lemma_cells_kept(&w0);
            assert(w1.archetypes.identities()[a] == key);
            assert(w1.location_consistent(entity.index as int));
            assert(w1.entry_consistent(a, location.index as int));
            assert(0 <= w1.table_of(a) < w1.storages.tables@.len());
            assert(0 <= w1.table_of(b) < w1.storages.tables@.len());
            assert(w1.table_of(a) == w0.table_of(a));
            assert(w1.storages.tables@[w1.table_of(a)] == w0.storages.tables@[w0.table_of(a)]);
        }
        // the values in sparse sets are dropped here, those in the table by the move
        let info = match self.bundles.get(bundle_id) {
            Some(info) => info,
            None => vstd::pervasive::unreached(),
        };
        let n: usize = info.components().len();
        let mut i: usize = 0;
        while i < n
            invariant
                i <= n,
                n == bundle.len(),
                info@ == bundle,
                w1.wf(),
                self.components == w1.components,
                self.bundles == w1.bundles,
                self.entities == w1.entities,
                self.archetypes == w1.archetypes,
                self.storages.tables == w1.storages.tables,
                self.storages.resources == w1.storages.resources,
                self.storages.sparse_sets.wf(),
                forall|k: usize| #[trigger]
                    self.storages.sparse_sets@.contains_key(k)
                        == w1.storages.sparse_sets@.contains_key(k),
                forall|id: ComponentId|
                    !bundle.contains(id) && w1.storages.sparse_sets@.contains_key(id.0)
                        ==> #[trigger] self.storages.sparse_sets@[id.0]
                        == w1.storages.sparse_sets@[id.0],
                forall|k: usize, other: Entity|
                    other.index != entity.index ==> #[trigger] self.storages.sparse_sets.cell_of(
                        k,
                        other,
                    ) == w1.storages.sparse_sets.cell_of(k, other),
            decreases n - i,
        {
            let id = info.components()[i];
            let ghost earlier = self.storages.sparse_sets@;
            let ghost earlier_sets = self.storages.sparse_sets;
            let _ = self.storages.sparse_sets.remove(id, entity);
            proof {
                assert(bundle.contains(bundle[i as int]));
                assert forall|x: ComponentId|
                    !bundle.contains(x) && w1.storages.sparse_sets@.contains_key(
                        x.0,
                    ) implies #[trigger] self.storages.sparse_sets@[x.0]
                    == w1.storages.sparse_sets@[x.0] by {
                    assert(x != id);
                    assert(x.0 != id.0) by {
                        assert(ComponentId(x.0) == x);
                        assert(ComponentId(id.0) == id);
                    }
                    assert(earlier.contains_key(x.0));
                }
                assert forall|k: usize| #[trigger]
                    self.storages.sparse_sets@.contains_key(k)
                        == w1.storages.sparse_sets@.contains_key(k) by {
                    assert(earlier.contains_key(k) == w1.storages.sparse_sets@.contains_key(k));
                }
                assert forall|k: usize, other: Entity|
                    other.index != entity.index implies #[trigger] self.storages.sparse_sets.cell_of(
                    k,
                    other,
                ) == w1.storages.sparse_sets.cell_of(k, other) by {
                    assert(earlier_sets.cell_of(k, other) == w1.storages.sparse_sets.cell_of(
                        k,
                        other,
                    ));
                }
            }
            i += 1;
        }
        let ghost w1s = *self;
        proof {
            w1s.lemma_rows_kept(&w1);
            assert(w1s.catalog_kept(&w1));
            w1s.lemma_catalog_kept(&w1);
            assert(w1s.location_consistent(entity.index as int));
            assert forall|other: Entity, id: ComponentId| other != entity implies #[trigger] w1s.cell_of(
                other,
                id,
            ) == w1.cell_of(other, id) by {
                if other.index == entity.index {
                    assert(w1.entities.location_of(other) is None);
                } else {
                    assert(w1s.storages.sparse_sets.cell_of(id.0, other)
                        == w1.storages.sparse_sets.cell_of(id.0, other));
                }
            }
        }
        if target.index() != source.index() {
            proof {
                let src = w1s.storages.tables@[w1s.table_of(a)];
                let dst = w1s.storages.tables@[w1s.table_of(b)];
                assert(src.wf() && dst.wf());
                dst.lemma_wf();
                assert(w1s.storages.tables.keys()[w1s.table_of(a)] == key.0);
                assert(w1s.storages.tables.keys()[w1s.table_of(b)] == target_key.0);
                assert forall|j: int| 0 <= j < dst.column_ids().len() implies src.has(
                    #[trigger] dst.column_ids()[j],
                ) by {
                    let k = dst.column_ids()[j];
                    assert(dst.has(k));
                    assert(target_key.0.contains(ComponentId(k)));
                    assert(key.0.contains(ComponentId(k)));
                }
                lemma_nothing_missing(&src, dst.column_ids(), dst.column_ids().len() as int);
            }
            self.move_entity(entity, target, Vec::new(), 0);
        }
        proof {
            let w2 = *self;
            assert(w2.entities.location_of(entity) is Some);
            assert(w2.location_consistent(entity.index as int));
            let l2 = w2.entities.location_of(entity)->0;
            assert(l2.archetype_id.spec_index() == b);
            assert(w2.archetypes.identities()[b] == target_key);
            assert(w2.table_of(b) == w1s.table_of(b));
            assert(w2.storages.sparse_sets == w1s.storages.sparse_sets);
            assert(w1.storages.tables.keys()[w1.table_of(a)] == key.0);
            assert(w1.storages.tables.keys()[w1.table_of(b)] == target_key.0);
            assert(w1.storages.tables.keys().no_duplicates());
            if target_key.0 == key.0 {
                assert(w1.table_of(a) == w1.table_of(b));
                assert(w2.row_of(entity) == w0.row_of(entity));
            }
            if target_key == key {
                assert(a == b);
                assert(w2.entities.location_of(entity) == w0.entities.location_of(entity));
            }
            if target_key == (Seq::<ComponentId>::empty(), Seq::<ComponentId>::empty()) {
                assert(w2.archetypes.identities()[0] == target_key);
                assert(b == 0);
            }
            assert forall|other: Entity, id: ComponentId| other != entity implies #[trigger] w2.cell_of(
                other,
                id,
            ) == w0.cell_of(other, id) by {
                assert(w1.cell_of(other, id) == w0.cell_of(other, id));
                assert(w1s.cell_of(other, id) == w1.cell_of(other, id));
                assert(w2.cell_of(other, id) == w1s.cell_of(other, id));
            }
            assert forall|id: ComponentId| #[trigger]
                w2.cell_of(entity, id) == if bundle.contains(id) {
                    None
                } else {
                    w0.cell_of(entity, id)
                } by {
                if !bundle.contains(id) && target_key.0.contains(id) {
                    lemma_remove_moved(&w1s, &w2, entity, target_key, id);
                }
            }
        }
        true
    }
}

} // verus!
