//! The periodic sweep that keeps ticks from wrapping around.

use crate::component::ComponentId;
use crate::entity::Entity;
use crate::storage::column::{swept, swept_cell};
use crate::world::World;
use vstd::prelude::*;

verus! {

impl World {
    /// Sweeps the ticks of every stored value and every resource at
    /// `change_tick`: a tick that has fallen behind by more than the largest
    /// age is moved up to that age, see [`crate::component::clamped_tick`].
    /// No value and no entity changes.
    ///
    /// The sweep has to run at least once in every
    /// [`crate::component::CHECK_TICK_THRESHOLD`] ticks, see
    /// [`crate::component::law_swept_tick_is_not_newer`].
    pub fn check_change_ticks(&mut self, change_tick: u32)
        requires
            old(self).wf(),
        ensures
            final(self).wf(),
            final(self).components == old(self).components,
            final(self).bundles == old(self).bundles,
            final(self).entities == old(self).entities,
            final(self).archetypes == old(self).archetypes,
            final(self).storages.tables.keys() == old(self).storages.tables.keys(),
            final(self).storages.resources.swept_from(&old(self).storages.resources, change_tick),
            forall|entity: Entity, id: ComponentId| #[trigger]
                final(self).cell_of(entity, id) == swept(old(self).cell_of(entity, id), change_tick),
    {
        let ghost before = *old(self);
        self.storages.tables.check_change_ticks(change_tick);
        self.storages.sparse_sets.check_change_ticks(change_tick);
        self.storages.resources.check_change_ticks(change_tick);
        proof {
            let after = *self;
            after.lemma_rows_kept(&before);
            assert(after.catalog_kept(&before));
            after.lemma_catalog_kept(&before);
            assert forall|entity: Entity, id: ComponentId| #[trigger]
                after.cell_of(entity, id) == swept(before.cell_of(entity, id), change_tick) by {
                if before.entities.location_of(entity) is Some {
                    let location = before.entities.location_of(entity)->0;
                    let a = location.archetype_id.spec_index() as int;
                    let i = location.index as int;
                    assert(before.location_consistent(entity.index as int));
                    assert(before.entry_consistent(a, i));
                    let key = before.archetypes.identities()[a];
                    let t = before.table_of(a);
                    let row = before.archetypes@[a]@[i].table_row as int;
                    assert(0 <= t < before.storages.tables@.len());
                    if key.1.contains(id) {
                        assert(after.storages.sparse_sets.cell_of(id.0, entity) == swept(
                            before.storages.sparse_sets.cell_of(id.0, entity),
                            change_tick,
                        ));
                    } else if key.0.contains(id) {
                        assert(ComponentId(id.0) == id);
                        assert(before.storages.tables.keys()[t] == key.0);
                        let old_table = before.storages.tables@[t];
                        let new_table = after.storages.tables@[t];
                        assert(new_table.swept_from(&old_table, change_tick));
                        assert(old_table.wf() && new_table.wf());
                        old_table.lemma_wf();
                        new_table.lemma_wf();
                        assert(old_table.has(id.0));
                        let ids = old_table.column_ids();
                        let j = choose|j: int| 0 <= j < ids.len() && ids[j] == id.0;
                        assert(old_table.cells_of(id.0) == old_table.column_cells()[j]);
                        assert(new_table.cells_of(id.0) == new_table.column_cells()[j]);
                        assert(new_table.column_cells()[j][row] == swept_cell(
                            old_table.column_cells()[j][row],
                            change_tick,
                        ));
                    }
                }
            }
        }
    }
}

} // verus!
