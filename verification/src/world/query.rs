//! Queries over a world: refreshing a cached match result, walking it, and
//! why the two ways of walking agree.

use crate::archetype::{identity_slots, lemma_identity_slots_dom, slots_before};
use crate::component::{ComponentId, StorageType};
use crate::entity::Entity;
use crate::query::equivalence::{
    in_archetype, law_dense_and_sparse_walks_agree, lemma_dense_rest, lemma_sparse_rest, owns,
    row_owned, row_valid, rows_consistent, rows_owned_once,
};
use crate::query::filter::QueryFilter;
use crate::query::iter::{
    all_items, dense_rest, item_of, items_of, sparse_rest, QueryItem, QueryIter, QueryManyIter,
};
use crate::query::state::{
    all_table_stored, matches_component_set, matching_archetypes, table_backed, tables_of,
    QueryState,
};
use crate::storage::table::TableId;
use crate::world::{filed_as_registered, has_component, World};
use vstd::prelude::*;
use vstd::seq_lib::to_multiset_contains;

verus! {

impl World {
    /// Refreshes the match result of a query against the archetypes of this
    /// world, see [`QueryState::update_archetypes`]. After that the query
    /// can be walked.
    pub fn refresh<F: QueryFilter>(&self, state: &mut QueryState<F>)
        requires
            self.wf(),
            old(state).wf(),
            old(state).drawn_from(&self.archetypes),
        ensures
            final(state).wf(),
            final(state).drawn_from(&self.archetypes),
            final(state).valid_for(&self.archetypes, &self.storages.tables),
            old(state).exact_for(&self.archetypes) ==> final(state).exact_for(&self.archetypes),
            final(state).generation() == self.archetypes@.len(),
            final(state).with() == old(state).with(),
            final(state).without() == old(state).without(),
            final(state).spec_filter() == old(state).spec_filter(),
            final(state).dense() == old(state).dense(),
            final(state).archetype_indices() == old(state).archetype_indices() + matching_archetypes(
                self.archetypes@,
                old(state).with(),
                old(state).without(),
                old(state).generation() as int,
                self.archetypes@.len() as int,
            ),            final(state).table_ids() == tables_of(
                old(state).table_ids(),
                self.archetypes@,
                matching_archetypes(
                    self.archetypes@,
                    old(state).with(),
                    old(state).without(),
                    old(state).generation() as int,
                    self.archetypes@.len() as int,
                ),
            ),
    {
        state.update_archetypes(&self.archetypes);
        proof {
            self.lemma_query_valid(state);
        }
    }

    /// An iterator over the items of the query: the matched tables row by
    /// row for a dense query, the matched archetypes entity by entity for a
    /// sparse one, see [`all_items`].
    pub fn iter<'w, 's, F: QueryFilter>(
        &'w self,
        state: &'s QueryState<F>,
        last_change_tick: u32,
        change_tick: u32,
    ) -> (it: QueryIter<'w, 's, F>)
        requires
            self.wf(),
            state.wf(),
            state.drawn_from(&self.archetypes),
        ensures
            it@ == all_items(
                state,
                &self.storages.tables,
                &self.archetypes,
                (last_change_tick, change_tick),
            ),
    {
        proof {
            self.lemma_query_valid(state);
        }
        QueryIter::new(self, state, last_change_tick, change_tick)
    }

    /// An iterator over the items that the query yields for the entities of
    /// `entity_list`, in the order of the list, see [`items_of`].
    pub fn iter_many<'w, 's, F: QueryFilter>(
        &'w self,
        state: &'s QueryState<F>,
        entity_list: Vec<Entity>,
        last_change_tick: u32,
        change_tick: u32,
    ) -> (it: QueryManyIter<'w, 's, F>)
        requires
            self.wf(),
            state.wf(),
            state.drawn_from(&self.archetypes),
        ensures
            it@ == items_of(
                state,
                &self.entities,
                &self.storages.tables,
                &self.archetypes,
                entity_list@,
                0,
                (last_change_tick, change_tick),
            ),            it.entities_ahead() == entity_list@,
            forall|entity: Entity| #[trigger]
                it.item_for(entity) == item_of(
                    state,
                    &self.entities,
                    &self.storages.tables,
                    &self.archetypes,
                    entity,
                    (last_change_tick, change_tick),
                ),
    {
        proof {
            self.lemma_query_valid(state);
            self.lemma_locations_valid();
        }
        QueryManyIter::new(self, state, entity_list, last_change_tick, change_tick)
    }

    /// An archetype that shares its table with an archetype that a query
    /// over table-stored components matches is matched too: the two have
    /// the same table components, and the query asks for nothing else.
    pub proof fn lemma_table_mates_match(
        &self,
        a: int,
        b: int,
        with: Seq<ComponentId>,
        without: Seq<ComponentId>,
    )
        requires
            self.wf(),
            0 <= a < self.archetypes@.len(),
            0 <= b < self.archetypes@.len(),
            self.table_of(a) == self.table_of(b),
            all_table_stored(&self.components, with),
            all_table_stored(&self.components, without),
            matches_component_set(&self.archetypes@[a], with, without),
        ensures
            matches_component_set(&self.archetypes@[b], with, without),
    {
        let ids = self.archetypes.identities();
        assert(0 <= self.table_of(a) < self.storages.tables@.len());
        assert(0 <= self.table_of(b) < self.storages.tables@.len());
        assert(ids[a].0 == ids[b].0);
        assert(filed_as_registered(ids[a], self.components@));
        assert(filed_as_registered(ids[b], self.components@));
        assert forall|c: ComponentId|
            self.components@[c.0 as int].storage_type == StorageType::Table && c.0
                < self.components@.len() implies (self.archetypes@[a].slots().contains_key(c.0)
            <==> self.archetypes@[b].slots().contains_key(c.0)) by {
            lemma_identity_slots_dom(ids[a], slots_before(ids, a) as int, c.0);
            lemma_identity_slots_dom(ids[b], slots_before(ids, b) as int, c.0);
            assert(ComponentId(c.0) == c);
            if ids[a].1.contains(c) {
                let i = choose|i: int| 0 <= i < ids[a].1.len() && ids[a].1[i] == c;
                assert(self.components@[ids[a].1[i].0 as int].storage_type == StorageType::SparseSet);
            }
            if ids[b].1.contains(c) {
                let i = choose|i: int| 0 <= i < ids[b].1.len() && ids[b].1[i] == c;
                assert(self.components@[ids[b].1[i].0 as int].storage_type == StorageType::SparseSet);
            }
        }
        assert forall|i: int| 0 <= i < with.len() implies self.archetypes@[b].slots().contains_key(
            #[trigger] with[i].0,
        ) by {
            assert(self.archetypes@[a].slots().contains_key(with[i].0));
        }
        assert forall|i: int| 0 <= i < without.len() implies !self.archetypes@[b].slots().contains_key(
            #[trigger] without[i].0,
        ) by {
            assert(!self.archetypes@[a].slots().contains_key(without[i].0));
        }
    }

    /// For a refreshed query over table-stored components, the matched
    /// tables and the matched archetypes hold the same rows.
    pub proof fn lemma_rows_consistent<F: QueryFilter>(&self, state: &QueryState<F>)
        requires
            self.wf(),
            state.wf(),
            state.drawn_from(&self.archetypes),
            state.exact_for(&self.archetypes),
            state.generation() == self.archetypes@.len(),
            all_table_stored(&self.components, state.with()),
            all_table_stored(&self.components, state.without()),
        ensures
            rows_consistent(
                self.storages.tables@,
                self.archetypes@,
                state.table_ids(),
                state.archetype_indices(),
            ),
    {
        let tables = self.storages.tables@;
        let archetypes = self.archetypes@;
        let table_ids = state.table_ids();
        let indices = state.archetype_indices();
        self.lemma_query_valid(state);
        assert forall|k: int| 0 <= k < indices.len() implies (#[trigger] indices[k]) < archetypes.len()
            && table_ids.contains(archetypes[indices[k] as int].spec_table_id()) by {}
        assert forall|k: int, i: int|
            0 <= k < indices.len() && 0 <= i
                < archetypes[indices[k] as int]@.len() implies #[trigger] row_valid(
            tables,
            archetypes,
            indices[k],
            i,
        ) by {
            self.lemma_row_owner(indices[k] as int, i);
        }
        assert forall|q: int, row: usize|
            0 <= q < table_ids.len() && row
                < tables[table_ids[q].0 as int]@.len() implies #[trigger] row_owned(
            archetypes,
            indices,
            table_ids[q],
            row,
        ) by {
            let t = table_ids[q].0 as int;
            let place = self.lemma_entry_of_row(t, row as int);
            assert(table_backed(archetypes, indices, table_ids[q]));
            let m = choose|m: int|
                0 <= m < indices.len() && #[trigger] archetypes[indices[m] as int].spec_table_id()
                    == table_ids[q];
            let mate = indices[m] as int;
            assert(indices.contains(mate as usize));
            assert(matches_component_set(&archetypes[mate], state.with(), state.without()));
            self.lemma_table_mates_match(mate, place.0, state.with(), state.without());
            assert(indices.contains(place.0 as usize));
            let k = choose|k: int| 0 <= k < indices.len() && indices[k] == place.0 as usize;
            assert(archetypes[place.0].spec_table_id() == table_ids[q]);
            assert(owns(archetypes, indices[k], place.1, table_ids[q], row));
        }
        assert forall|k: int, i: int, m: int, j: int, table_id: TableId, row: usize|
            0 <= k < indices.len() && 0 <= m < indices.len() && #[trigger] owns(
                archetypes,
                indices[k],
                i,
                table_id,
                row,
            ) && #[trigger] owns(archetypes, indices[m], j, table_id, row) implies k == m && i
            == j by {
            self.lemma_row_owner(indices[k] as int, i);
            self.lemma_row_owner(indices[m] as int, j);
        }
    }

    /// An entity is yielded by every refreshed query that asks for what it
    /// has: if its archetype has every component the query asks for and
    /// none of those it rules out, and the filter lets its row pass, then
    /// the query has an item for it, and the item names the table and the
    /// row where its values are.
    pub proof fn law_matching_entity_has_an_item<F: QueryFilter>(
        &self,
        state: &QueryState<F>,
        entity: Entity,
        ticks: (u32, u32),
    )
        requires
            self.wf(),
            state.wf(),
            state.exact_for(&self.archetypes),
            state.generation() == self.archetypes@.len(),
            self.entities.location_of(entity) matches Some(location) && {
                let key = self.archetypes.identities()[location.archetype_id.spec_index() as int];
                &&& forall|i: int|
                    0 <= i < state.with().len() ==> has_component(key, #[trigger] state.with()[i])
                &&& forall|i: int|
                    0 <= i < state.without().len() ==> !has_component(
                        key,
                        #[trigger] state.without()[i],
                    )
            },
            self.row_of(entity) matches Some(place) && state.spec_filter().accepts(
                &self.storages.tables@[place.0],
                entity,
                place.1 as usize,
                ticks.0,
                ticks.1,
            ),
        ensures
            self.row_of(entity) matches Some(place) && item_of(
                state,
                &self.entities,
                &self.storages.tables,
                &self.archetypes,
                entity,
                ticks,
            ) == Some(
                QueryItem { entity, table_id: TableId(place.0 as usize), table_row: place.1 as usize },
            ),
    {
        let location = self.entities.location_of(entity)->0;
        let a = location.archetype_id.spec_index() as int;
        let ids = self.archetypes.identities();
        let key = ids[a];
        assert(self.location_consistent(entity.index as int));
        assert(0 <= self.table_of(a) < self.storages.tables@.len());
        assert(self.archetypes@[a].slots() == identity_slots(
            key,
            slots_before(ids, a),
        ));
        assert forall|i: int| 0 <= i < state.with().len() implies self.archetypes@[a].slots().contains_key(
            #[trigger] state.with()[i].0,
        ) by {
            let c = state.with()[i];
            assert(has_component(key, c));
            assert(ComponentId(c.0) == c);
            lemma_identity_slots_dom(key, slots_before(ids, a) as int, c.0);
        }
        assert forall|i: int|
            0 <= i < state.without().len() implies !self.archetypes@[a].slots().contains_key(
            #[trigger] state.without()[i].0,
        ) by {
            let c = state.without()[i];
            assert(!has_component(key, c));
            assert(ComponentId(c.0) == c);
            lemma_identity_slots_dom(key, slots_before(ids, a) as int, c.0);
        }
        assert(matches_component_set(&self.archetypes@[a], state.with(), state.without()));
        assert(state.archetype_indices().contains(a as usize));
    }

    /// No table row is named by two entries of the matched archetypes.
    pub proof fn lemma_rows_owned_once<F: QueryFilter>(&self, state: &QueryState<F>)
        requires
            self.wf(),
            state.wf(),
            state.exact_for(&self.archetypes),
            state.generation() <= self.archetypes@.len(),
        ensures
            rows_owned_once(self.archetypes@, state.archetype_indices()),
    {
        let archetypes = self.archetypes@;
        let indices = state.archetype_indices();
        assert forall|k: int, i: int, m: int, j: int, table_id: TableId, row: usize|
            0 <= k < indices.len() && 0 <= m < indices.len() && #[trigger] owns(
                archetypes,
                indices[k],
                i,
                table_id,
                row,
            ) && #[trigger] owns(archetypes, indices[m], j, table_id, row) implies k == m && i
            == j by {
            assert(indices[k] < state.generation());
            assert(indices[m] < state.generation());
            self.lemma_row_owner(indices[k] as int, i);
            self.lemma_row_owner(indices[m] as int, j);
        }
    }

    /// A walk loses nothing and repeats nothing: what a fresh iterator over
    /// a refreshed query yields is, for each entity, the item that
    /// [`item_of`] gives for it, and it comes exactly once. An entity that
    /// is placed in a matched archetype and passes the filter is found by
    /// every walk, wherever a structural change has moved it.
    pub proof fn law_walk_yields_each_item_once<F: QueryFilter>(
        &self,
        state: &QueryState<F>,
        ticks: (u32, u32),
    )
        requires
            self.wf(),
            state.wf(),
            state.drawn_from(&self.archetypes),
            state.exact_for(&self.archetypes),
            state.generation() == self.archetypes@.len(),
            state.dense() ==> all_table_stored(&self.components, state.with()) && all_table_stored(
                &self.components,
                state.without(),
            ),
        ensures
            all_items(state, &self.storages.tables, &self.archetypes, ticks).no_duplicates(),
            forall|x: QueryItem| #[trigger]
                all_items(state, &self.storages.tables, &self.archetypes, ticks).contains(x)
                    <==> item_of(
                    state,
                    &self.entities,
                    &self.storages.tables,
                    &self.archetypes,
                    x.entity,
                    ticks,
                ) == Some(x),
    {
        let filter = state.spec_filter();
        let tables = self.storages.tables@;
        let archetypes = self.archetypes@;
        let indices = state.archetype_indices();
        let sparse = sparse_rest(&filter, archetypes, tables, indices, 0, indices.len() as int, ticks);
        self.lemma_rows_owned_once(state);
        lemma_sparse_rest(&filter, archetypes, tables, indices, 0, ticks);
        assert forall|x: QueryItem| #[trigger] sparse.contains(x) <==> item_of(
            state,
            &self.entities,
            &self.storages.tables,
            &self.archetypes,
            x.entity,
            ticks,
        ) == Some(x) by {
            if sparse.contains(x) {
                let (k, i) = choose|k: int, i: int|
                    0 <= k < indices.len() && #[trigger] in_archetype(
                        &filter,
                        archetypes,
                        tables,
                        indices,
                        k,
                        i,
                        x,
                        ticks,
                    );
                assert(indices[k] < state.generation());
                self.lemma_row_owner(indices[k] as int, i);
                assert(indices.contains(indices[k]));
            }
            if item_of(state, &self.entities, &self.storages.tables, &self.archetypes, x.entity, ticks)
                == Some(x) {
                let location = self.entities.location_of(x.entity)->0;
                let a = location.archetype_id.spec_index();
                assert(self.location_consistent(x.entity.index as int));
                let k = choose|k: int| 0 <= k < indices.len() && indices[k] == a;
                assert(in_archetype(
                    &filter,
                    archetypes,
                    tables,
                    indices,
                    k,
                    location.index as int,
                    x,
                    ticks,
                ));
            }
        }
        if state.dense() {
            let dense = dense_rest(
                &filter,
                tables,
                state.table_ids(),
                0,
                state.table_ids().len() as int,
                ticks,
            );
            self.law_both_walks_yield_the_same_items(state, ticks);
            self.lemma_rows_consistent(state);
            self.lemma_query_valid(state);
            assert forall|q: int|
                0 <= q < state.table_ids().len() implies tables[state.table_ids()[q].0 as int]@.len()
                <= usize::MAX by {
                tables[state.table_ids()[q].0 as int].lemma_wf();
            }
            lemma_dense_rest(&filter, tables, state.table_ids(), 0, ticks);
            assert forall|x: QueryItem| #[trigger] dense.contains(x) <==> sparse.contains(x) by {
                to_multiset_contains(dense, x);
                to_multiset_contains(sparse, x);
            }
        }
    }

    /// For a refreshed query over table-stored components, walking the
    /// matched tables row by row and walking the matched archetypes entity
    /// by entity yield the same items, each exactly once.
    pub proof fn law_both_walks_yield_the_same_items<F: QueryFilter>(
        &self,
        state: &QueryState<F>,
        ticks: (u32, u32),
    )
        requires
            self.wf(),
            state.wf(),
            state.drawn_from(&self.archetypes),
            state.exact_for(&self.archetypes),
            state.generation() == self.archetypes@.len(),
            all_table_stored(&self.components, state.with()),
            all_table_stored(&self.components, state.without()),
        ensures
            dense_rest(
                &state.spec_filter(),
                self.storages.tables@,
                state.table_ids(),
                0,
                state.table_ids().len() as int,
                ticks,
            ).to_multiset() == sparse_rest(
                &state.spec_filter(),
                self.archetypes@,
                self.storages.tables@,
                state.archetype_indices(),
                0,
                state.archetype_indices().len() as int,
                ticks,
            ).to_multiset(),
    {
        self.lemma_rows_consistent(state);
        self.lemma_query_valid(state);
        assert forall|q: int| 0 <= q
            < state.table_ids().len() implies self.storages.tables@[state.table_ids()[q].0 as int]@.len()
            <= usize::MAX by {
            self.storages.tables@[state.table_ids()[q].0 as int].lemma_wf();
        }
        law_dense_and_sparse_walks_agree(
            &state.spec_filter(),
            self.storages.tables@,
            self.archetypes@,
            state.table_ids(),
            state.archetype_indices(),
            ticks,
        );
    }
}

} // verus!
