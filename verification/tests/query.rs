use ecs_core::archetype::ArchetypeId;
use ecs_core::component::{ComponentId, Components, StorageType};
use ecs_core::entity::Entity;
use ecs_core::query::batches::{batches, fetch_batch, push_spans, Batch};
use ecs_core::query::binomial::n_choose_k;
use ecs_core::query::filter::{Added, Changed, QueryFilter, Unfiltered};
use ecs_core::query::iter::{
    QueryCombinationIter, QueryItem, QueryIter, QueryIterationCursor, QueryManyIter, QuerySwitch,
};
use ecs_core::query::state::QueryState;
use ecs_core::storage::table::TableId;
use ecs_core::world::World;

const A: usize = 0;
const B: usize = 1;
const S: usize = 2;

fn registry() -> Components {
    let mut components = Components::new();
    components.init_component(StorageType::Table, 1);
    components.init_component(StorageType::Table, 1);
    components.init_component(StorageType::SparseSet, 1);
    components
}

/// A registry in which every component counts as sparse, so that a query
/// over table components walks archetypes instead of tables.
fn sparse_registry() -> Components {
    let mut components = Components::new();
    components.init_component(StorageType::SparseSet, 1);
    components.init_component(StorageType::SparseSet, 1);
    components.init_component(StorageType::SparseSet, 1);
    components
}

fn ids(indices: &[usize]) -> Vec<ComponentId> {
    indices.iter().map(|i| ComponentId::new(*i)).collect()
}

fn spawn(world: &mut World, table: &[usize], sparse: &[usize], tick: u32) -> Entity {
    let table_id = world.storages.tables.get_id_or_insert(ids(table));
    let archetype_id = world.archetypes.get_id_or_insert(table_id, ids(table), ids(sparse));
    let entity = world.entities.allocate();
    let columns = world.storages.tables.index(table_id).column_count();
    let values = (0..columns).map(|_| vec![entity.index() as u8]).collect();
    let row = world.storages.tables.index_mut(table_id).allocate(entity, values, tick);
    let location = world.archetypes.index_mut(archetype_id).allocate(entity, row);
    world.entities.set(entity.index(), location);
    entity
}

/// Entities 0 and 1 in {A}, 2 in {A, B}, 3 in {A, S} (which shares the table
/// of {A}), 4 in {B}.
fn sample_world() -> World {
    let mut world = World::new();
    spawn(&mut world, &[A], &[], 1);
    spawn(&mut world, &[A], &[], 2);
    spawn(&mut world, &[A, B], &[], 3);
    spawn(&mut world, &[A], &[S], 4);
    spawn(&mut world, &[B], &[], 5);
    world
}

fn state<F: QueryFilter>(
    components: &Components,
    world: &World,
    with: &[usize],
    without: &[usize],
    filter: F,
) -> QueryState<F> {
    let mut state = QueryState::new(components, ids(with), ids(without), filter);
    state.update_archetypes(&world.archetypes);
    state
}

fn collect<F: QueryFilter>(mut iter: QueryIter<F>) -> Vec<QueryItem> {
    let mut items = Vec::new();
    while let Some(item) = iter.next() {
        items.push(item);
    }
    assert!(iter.next().is_none());
    items
}

fn entities(items: &[QueryItem]) -> Vec<u32> {
    items.iter().map(|item| item.entity.index()).collect()
}

#[test]
fn a_query_matches_the_archetypes_that_have_its_components() {
    let world = sample_world();
    let with_a = state(&registry(), &world, &[A], &[], Unfiltered);
    let matched: Vec<usize> = with_a.matched_archetype_ids().iter().map(|id| id.index()).collect();
    assert_eq!(matched, vec![1, 2, 3]);
    assert_eq!(with_a.matched_table_ids(), &vec![TableId::new(1), TableId::new(2)]);
    assert!(with_a.is_dense());
    assert!(with_a.matches_archetype(2));
    assert!(!with_a.matches_archetype(0));
    assert!(!with_a.matches_archetype(4));
    assert!(!with_a.matches_archetype(400));
    let without_b = state(&registry(), &world, &[A], &[B], Unfiltered);
    let matched: Vec<usize> =
        without_b.matched_archetype_ids().iter().map(|id| id.index()).collect();
    assert_eq!(matched, vec![1, 3]);
    assert_eq!(without_b.matched_table_ids(), &vec![TableId::new(1)]);
    let with_s = state(&registry(), &world, &[S], &[], Unfiltered);
    assert!(!with_s.is_dense());
    let everything = state(&registry(), &world, &[], &[], Unfiltered);
    assert_eq!(everything.matched_archetype_ids().len(), 5);
}

#[test]
fn a_refresh_only_looks_at_new_archetypes() {
    let mut world = sample_world();
    let mut state = state(&registry(), &world, &[B], &[], Unfiltered);
    let before: Vec<usize> = state.matched_archetype_ids().iter().map(|id| id.index()).collect();
    assert_eq!(before, vec![2, 4]);
    state.update_archetypes(&world.archetypes);
    assert_eq!(state.matched_archetype_ids().len(), 2);
    spawn(&mut world, &[B], &[S], 6);
    spawn(&mut world, &[A], &[], 7);
    state.update_archetypes(&world.archetypes);
    let after: Vec<usize> = state.matched_archetype_ids().iter().map(|id| id.index()).collect();
    assert_eq!(after, vec![2, 4, 5]);
    assert_eq!(state.matched_table_ids(), &vec![TableId::new(2), TableId::new(3)]);
}

#[test]
fn a_dense_query_walks_tables_row_by_row() {
    let world = sample_world();
    let state = state(&registry(), &world, &[A], &[], Unfiltered);
    let items = collect(QueryIter::new(&world, &state, 0, 10));
    assert_eq!(entities(&items), vec![0, 1, 3, 2]);
    assert_eq!(
        items[2],
        QueryItem { entity: Entity::from_raw(3), table_id: TableId::new(1), table_row: 2 }
    );
    assert_eq!(
        items[3],
        QueryItem { entity: Entity::from_raw(2), table_id: TableId::new(2), table_row: 0 }
    );
}

#[test]
fn a_sparse_query_walks_archetypes_entity_by_entity() {
    let world = sample_world();
    let state = state(&sparse_registry(), &world, &[A], &[], Unfiltered);
    assert!(!state.is_dense());
    let items = collect(QueryIter::new(&world, &state, 0, 10));
    assert_eq!(entities(&items), vec![0, 1, 2, 3]);
    assert_eq!(
        items[3],
        QueryItem { entity: Entity::from_raw(3), table_id: TableId::new(1), table_row: 2 }
    );
}

#[test]
fn dense_and_sparse_walks_yield_the_same_items() {
    let mut world = sample_world();
    for i in 0..7 {
        spawn(&mut world, if i % 2 == 0 { &[A] } else { &[A, B] }, if i % 3 == 0 { &[S] } else { &[] }, 9);
    }
    let dense = state(&registry(), &world, &[A], &[], Unfiltered);
    let sparse = state(&sparse_registry(), &world, &[A], &[], Unfiltered);
    assert!(dense.is_dense() && !sparse.is_dense());
    let mut dense_items = collect(QueryIter::new(&world, &dense, 0, 10));
    let mut sparse_items = collect(QueryIter::new(&world, &sparse, 0, 10));
    assert_eq!(dense_items.len(), 11);
    let key = |item: &QueryItem| (item.entity.index(), item.table_id.index(), item.table_row);
    dense_items.sort_by_key(key);
    sparse_items.sort_by_key(key);
    assert_eq!(dense_items, sparse_items);
}

#[test]
fn a_query_without_matches_yields_nothing() {
    let world = World::new();
    let state = state(&registry(), &world, &[A], &[], Unfiltered);
    let mut iter = QueryIter::new(&world, &state, 0, 1);
    assert_eq!(iter.size_hint(), (0, Some(0)));
    assert_eq!(iter.len(), 0);
    assert!(iter.next().is_none());
    assert!(iter.next().is_none());
}

#[test]
fn an_exhausted_cursor_stays_exhausted() {
    let world = sample_world();
    let state = state(&registry(), &world, &[B], &[], Unfiltered);
    let mut cursor = QueryIterationCursor::init(&world, &state, 0, 1);
    assert!(cursor.peek_last(&world.storages.tables, &world.archetypes).is_none());
    let mut seen = Vec::new();
    while let Some(item) = cursor.next(&world.storages.tables, &world.archetypes, &state) {
        assert_eq!(cursor.peek_last(&world.storages.tables, &world.archetypes), Some(item));
        seen.push(item.entity.index());
    }
    assert_eq!(seen, vec![2, 4]);
    for _ in 0..3 {
        assert!(cursor.next(&world.storages.tables, &world.archetypes, &state).is_none());
    }
    let copy = cursor.clone_cursor();
    assert_eq!(
        copy.peek_last(&world.storages.tables, &world.archetypes),
        cursor.peek_last(&world.storages.tables, &world.archetypes)
    );
    let mut empty = QueryIterationCursor::init_empty(&world, &state, 0, 1);
    assert!(empty.next(&world.storages.tables, &world.archetypes, &state).is_none());
    assert!(empty.peek_last(&world.storages.tables, &world.archetypes).is_none());
}

#[test]
fn the_size_hint_counts_the_entities_of_matched_archetypes() {
    let world = sample_world();
    let all = state(&registry(), &world, &[A], &[], Unfiltered);
    let iter = QueryIter::new(&world, &all, 0, 10);
    assert_eq!(iter.size_hint(), (4, Some(4)));
    assert_eq!(iter.len(), 4);
    let changed = state(&registry(), &world, &[A], &[], Changed { component_id: ComponentId::new(A) });
    let iter = QueryIter::new(&world, &changed, 0, 10);
    assert_eq!(iter.size_hint(), (0, Some(4)));
}

#[test]
fn a_change_filter_lets_rows_pass_that_changed_since_the_last_run() {
    let mut world = sample_world();
    let changed = state(&registry(), &world, &[A], &[], Changed { component_id: ComponentId::new(A) });
    assert!(changed.is_dense());
    // the rows were written at ticks 1, 2, 4 (table of {A}) and 3 (table of {A, B})
    assert_eq!(entities(&collect(QueryIter::new(&world, &changed, 0, 10))), vec![0, 1, 3, 2]);
    assert_eq!(entities(&collect(QueryIter::new(&world, &changed, 2, 10))), vec![3, 2]);
    assert_eq!(entities(&collect(QueryIter::new(&world, &changed, 4, 10))), Vec::<u32>::new());
    // an overwrite moves the changed tick, not the added tick
    assert!(world.storages.tables.index_mut(TableId::new(1)).replace(
        ComponentId::new(A),
        0,
        vec![9],
        8
    ));
    assert_eq!(entities(&collect(QueryIter::new(&world, &changed, 4, 10))), vec![0]);
    let added = state(&registry(), &world, &[A], &[], Added { component_id: ComponentId::new(A) });
    assert_eq!(entities(&collect(QueryIter::new(&world, &added, 3, 10))), vec![3]);
    // a filter on a column that the table lacks lets nothing pass
    let other = state(&registry(), &world, &[A], &[B], Changed { component_id: ComponentId::new(B) });
    assert_eq!(entities(&collect(QueryIter::new(&world, &other, 0, 10))), Vec::<u32>::new());
}

#[test]
fn the_unfiltered_filter_is_dense_and_archetypal() {
    assert!(Unfiltered.is_dense());
    assert!(Unfiltered.is_archetypal());
    let changed = Changed { component_id: ComponentId::new(A) };
    assert!(changed.is_dense());
    assert!(!changed.is_archetypal());
}

#[test]
fn many_iter_follows_the_list_and_skips_what_does_not_match() {
    let mut world = sample_world();
    let spare = world.entities.allocate();
    let state = state(&registry(), &world, &[A], &[B], Unfiltered);
    let stale = Entity { index: 1, generation: 7 };
    let list = vec![
        Entity::from_raw(3),
        Entity::from_raw(2),
        stale,
        Entity::from_raw(40),
        spare,
        Entity::from_raw(0),
        Entity::from_raw(4),
        Entity::from_raw(3),
    ];
    let mut iter = QueryManyIter::new(&world, &state, list, 0, 10);
    assert_eq!(iter.size_hint(), (0, Some(8)));
    let first = iter.fetch_next().unwrap();
    assert_eq!(
        first,
        QueryItem { entity: Entity::from_raw(3), table_id: TableId::new(1), table_row: 2 }
    );
    assert_eq!(iter.size_hint(), (0, Some(7)));
    assert_eq!(iter.next().unwrap().entity, Entity::from_raw(0));
    assert_eq!(iter.size_hint(), (0, Some(2)));
    assert_eq!(iter.fetch_next().unwrap().entity, Entity::from_raw(3));
    assert!(iter.fetch_next().is_none());
    assert!(iter.fetch_next().is_none());
    assert_eq!(iter.size_hint(), (0, Some(0)));
}

#[test]
fn two_items_can_be_held_at_once() {
    let world = sample_world();
    let state = state(&registry(), &world, &[A], &[], Unfiltered);
    let mut iter = QueryManyIter::new(
        &world,
        &state,
        vec![Entity::from_raw(1), Entity::from_raw(1)],
        0,
        10,
    );
    let first = iter.fetch_next();
    let second = iter.fetch_next();
    assert_eq!(first, second);
    assert_eq!(first.unwrap().table_row, 1);
    let mut combinations = QueryCombinationIter::<Unfiltered, 2>::new(&world, &state, 0, 10);
    let a = combinations.fetch_next();
    let b = combinations.fetch_next();
    assert_ne!(a, b);
}

fn combinations<const K: usize>(world: &World, state: &QueryState<Unfiltered>) -> Vec<[u32; K]> {
    let mut iter = QueryCombinationIter::<Unfiltered, K>::new(world, state, 0, 10);
    let mut all = Vec::new();
    while let Some(items) = iter.fetch_next() {
        all.push(items.map(|item| item.entity.index()));
    }
    for _ in 0..4 {
        assert!(iter.fetch_next().is_none());
    }
    all
}

fn world_of(n: u32) -> World {
    let mut world = World::new();
    for i in 0..n {
        spawn(&mut world, if i % 2 == 0 { &[A] } else { &[A, B] }, &[S], 1);
    }
    world
}

#[test]
fn pairs_of_four_come_in_lexicographic_order() {
    let mut world = World::new();
    for _ in 0..4 {
        spawn(&mut world, &[A], &[], 1);
    }
    let state = state(&registry(), &world, &[A], &[], Unfiltered);
    assert_eq!(
        combinations::<2>(&world, &state),
        vec![[0, 1], [0, 2], [0, 3], [1, 2], [1, 3], [2, 3]]
    );
    assert_eq!(
        combinations::<3>(&world, &state),
        vec![[0, 1, 2], [0, 1, 3], [0, 2, 3], [1, 2, 3]]
    );
    assert_eq!(combinations::<4>(&world, &state), vec![[0, 1, 2, 3]]);
    assert_eq!(combinations::<1>(&world, &state), vec![[0], [1], [2], [3]]);
}

#[test]
fn there_are_no_combinations_of_more_items_than_there_are() {
    let world = world_of(3);
    let state = state(&registry(), &world, &[A], &[], Unfiltered);
    assert_eq!(combinations::<4>(&world, &state), Vec::<[u32; 4]>::new());
    assert_eq!(combinations::<5>(&world, &state), Vec::<[u32; 5]>::new());
    // there is one way to pick nothing, whatever there is to pick from
    assert_eq!(combinations::<0>(&world, &state), vec![[0u32; 0]]);
    let nothing = World::new();
    let none = QueryState::new(&registry(), ids(&[A]), Vec::new(), Unfiltered);
    assert_eq!(combinations::<0>(&nothing, &none), vec![[0u32; 0]]);
    assert_eq!(combinations::<1>(&nothing, &none), Vec::<[u32; 1]>::new());
    assert_eq!(combinations::<2>(&nothing, &none), Vec::<[u32; 2]>::new());
}

fn ascending<const K: usize>(n: u32) -> Vec<[u32; K]> {
    let mut all = Vec::new();
    let mut current = [0u32; K];
    for (i, slot) in current.iter_mut().enumerate() {
        *slot = i as u32;
    }
    if K as u32 > n {
        return all;
    }
    loop {
        all.push(current);
        let mut i = K;
        while i > 0 && current[i - 1] == n - (K - (i - 1)) as u32 {
            i -= 1;
        }
        if i == 0 {
            return all;
        }
        current[i - 1] += 1;
        for j in i..K {
            current[j] = current[j - 1] + 1;
        }
    }
}

fn order_of_the_walk(world: &World, state: &QueryState<Unfiltered>) -> Vec<u32> {
    entities(&collect(QueryIter::new(world, state, 0, 10)))
}

fn check_all_combinations<const K: usize>(n: u32, count: usize) {
    let world = world_of(n);
    for components in [registry(), sparse_registry()] {
        let state = state(&components, &world, &[A], &[], Unfiltered);
        let order = order_of_the_walk(&world, &state);
        assert_eq!(order.len(), n as usize);
        let expected: Vec<[u32; K]> =
            ascending::<K>(n).iter().map(|c| c.map(|p| order[p as usize])).collect();
        assert_eq!(expected.len(), count);
        assert_eq!(combinations::<K>(&world, &state), expected);
        let iter = QueryCombinationIter::<Unfiltered, K>::new(&world, &state, 0, 10);
        assert_eq!(iter.size_hint(), (count, Some(count)));
    }
}

#[test]
fn small_combinations_are_enumerated_in_full() {
    check_all_combinations::<1>(1, 1);
    check_all_combinations::<1>(5, 5);
    check_all_combinations::<2>(2, 1);
    check_all_combinations::<2>(3, 3);
    check_all_combinations::<2>(5, 10);
    check_all_combinations::<2>(6, 15);
    check_all_combinations::<3>(3, 1);
    check_all_combinations::<3>(5, 10);
    check_all_combinations::<3>(6, 20);
    check_all_combinations::<4>(6, 15);
    check_all_combinations::<5>(6, 6);
    check_all_combinations::<6>(6, 1);
    check_all_combinations::<3>(2, 0);
    check_all_combinations::<6>(5, 0);
}

#[test]
fn combinations_of_filtered_items_skip_rejected_rows() {
    let mut world = World::new();
    for tick in [1, 5, 2, 6, 7] {
        spawn(&mut world, &[A], &[], tick);
    }
    let state = state(&registry(), &world, &[A], &[], Changed { component_id: ComponentId::new(A) });
    let mut iter = QueryCombinationIter::<Changed, 2>::new(&world, &state, 4, 10);
    assert_eq!(iter.size_hint(), (0, Some(10)));
    let mut all = Vec::new();
    while let Some(items) = iter.fetch_next() {
        all.push(items.map(|item| item.entity.index()));
    }
    assert_eq!(all, vec![[1, 3], [1, 4], [3, 4]]);
    assert!(iter.fetch_next().is_none());
}

#[test]
fn the_size_hint_of_combinations_is_the_binomial_coefficient() {
    let world = world_of(6);
    let state = state(&registry(), &world, &[A], &[], Unfiltered);
    assert_eq!(
        QueryCombinationIter::<Unfiltered, 0>::new(&world, &state, 0, 1).size_hint(),
        (1, Some(1))
    );
    assert_eq!(
        QueryCombinationIter::<Unfiltered, 2>::new(&world, &state, 0, 1).size_hint(),
        (15, Some(15))
    );
    assert_eq!(
        QueryCombinationIter::<Unfiltered, 6>::new(&world, &state, 0, 1).size_hint(),
        (1, Some(1))
    );
    assert_eq!(
        QueryCombinationIter::<Unfiltered, 7>::new(&world, &state, 0, 1).size_hint(),
        (0, Some(0))
    );
    // a filter that can reject rows leaves only the upper bound
    let changed = self::state(&registry(), &world, &[A], &[], Changed { component_id: ComponentId::new(A) });
    assert_eq!(
        QueryCombinationIter::<Changed, 2>::new(&world, &changed, 0, 1).size_hint(),
        (0, Some(15))
    );
    assert_eq!(
        QueryCombinationIter::<Changed, 6>::new(&world, &changed, 0, 1).size_hint(),
        (0, Some(1))
    );
    assert_eq!(
        QueryCombinationIter::<Changed, 0>::new(&world, &changed, 0, 1).size_hint(),
        (0, Some(1))
    );
    assert_eq!(
        QueryCombinationIter::<Changed, 7>::new(&world, &changed, 0, 1).size_hint(),
        (0, Some(0))
    );
}

#[test]
fn n_choose_k_is_exact_wherever_the_coefficient_fits() {
    assert_eq!(n_choose_k(0, 0), Some(1));
    assert_eq!(n_choose_k(5, 0), Some(1));
    assert_eq!(n_choose_k(5, 5), Some(1));
    assert_eq!(n_choose_k(10, 3), Some(120));
    assert_eq!(n_choose_k(52, 5), Some(2_598_960));
    assert_eq!(n_choose_k(usize::MAX, 1), Some(usize::MAX));
    assert_eq!(n_choose_k(usize::MAX, 2), None);
    if usize::BITS == 64 {
        assert_eq!(n_choose_k(62, 31), Some(465_428_353_255_261_088));
        // the coefficient fits although a product on the way to it does not
        assert_eq!(n_choose_k(66, 33), Some(7_219_428_434_016_265_740));
        assert_eq!(n_choose_k(67, 33), Some(14_226_520_737_620_288_370));
        assert_eq!(n_choose_k(67, 34), Some(14_226_520_737_620_288_370));
        assert_eq!(n_choose_k(4_000_000, 3), Some(10_666_658_666_668_000_000));
        assert_eq!(n_choose_k(4_000_000, 3_999_997), Some(10_666_658_666_668_000_000));
        assert_eq!(n_choose_k(68, 34), None);
        assert_eq!(n_choose_k(usize::MAX, usize::MAX / 2), None);
    }
    assert_eq!(n_choose_k(3, 4), Some(0));
    assert_eq!(n_choose_k(usize::MAX, usize::MAX - 1), Some(usize::MAX));
    assert_eq!(n_choose_k(usize::MAX, usize::MAX), Some(1));
}

#[test]
fn a_switch_holds_one_of_two_values() {
    let mut dense: QuerySwitch<u32, bool> = QuerySwitch::new_dense(4);
    *dense.dense() += 1;
    assert!(matches!(dense, QuerySwitch::Dense(5)));
    let mut sparse: QuerySwitch<u32, bool> = QuerySwitch::new_sparse(false);
    *sparse.sparse() = true;
    assert!(matches!(sparse, QuerySwitch::Sparse(true)));
}

#[test]
fn an_item_names_the_archetype_table() {
    let world = sample_world();
    let state = state(&registry(), &world, &[S], &[], Unfiltered);
    let items = collect(QueryIter::new(&world, &state, 0, 10));
    assert_eq!(items.len(), 1);
    let archetype = world.archetypes.index(ArchetypeId::new(3));
    assert_eq!(items[0].table_id, archetype.table_id());
    assert_eq!(items[0].table_row, archetype.entity_table_row(0));
    assert_eq!(items[0].entity, archetype.entities()[0].entity());
}

#[test]
fn a_query_reports_the_storage_positions_it_touches() {
    let world = sample_world();
    let components = registry();
    let positions = |with: &[usize], without: &[usize]| -> Vec<usize> {
        state(&components, &world, with, without, Unfiltered)
            .archetype_component_access(&world.archetypes)
            .iter()
            .map(|id| id.index())
            .collect()
    };
    // archetypes {A}, {A, B} and {A, S}: one position of A in each
    assert_eq!(positions(&[A], &[]), vec![0, 1, 3]);
    assert_eq!(positions(&[B], &[]), vec![2, 5]);
    assert_eq!(positions(&[B, A], &[]), vec![2, 1]);
    assert_eq!(positions(&[A, S], &[]), vec![3, 4]);
    assert_eq!(positions(&[A], &[B]), vec![0, 3]);
    assert_eq!(positions(&[], &[]), Vec::<usize>::new());
    // the same component in different archetypes: no shared position
    let first = positions(&[A], &[B, S]);
    let second = positions(&[A], &[]).into_iter().filter(|p| !first.contains(p)).collect::<Vec<_>>();
    assert_eq!(first, vec![0]);
    assert_eq!(second, vec![1, 3]);
    // a state that has not been refreshed touches nothing
    let stale = QueryState::new(&components, ids(&[A]), Vec::new(), Unfiltered);
    assert!(stale.archetype_component_access(&world.archetypes).is_empty());
}

#[test]
fn spans_cut_a_length_into_pieces_of_the_batch_size() {
    let spans = |len: usize, size: usize| -> Vec<(usize, usize)> {
        let mut all = vec![Batch { position: 9, start: 0, end: 0 }];
        push_spans(&mut all, 3, len, size);
        assert_eq!(all[0], Batch { position: 9, start: 0, end: 0 });
        assert!(all[1..].iter().all(|b| b.position == 3));
        all[1..].iter().map(|b| (b.start, b.end)).collect()
    };
    assert_eq!(spans(0, 4), vec![]);
    assert_eq!(spans(3, 4), vec![(0, 3)]);
    assert_eq!(spans(4, 4), vec![(0, 4)]);
    assert_eq!(spans(5, 4), vec![(0, 4), (4, 5)]);
    assert_eq!(spans(7, 3), vec![(0, 3), (3, 6), (6, 7)]);
    assert_eq!(spans(3, 1), vec![(0, 1), (1, 2), (2, 3)]);
    assert_eq!(spans(2, usize::MAX), vec![(0, 2)]);
}

#[test]
fn the_batches_of_a_query_yield_what_one_walk_yields() {
    let mut world = sample_world();
    for i in 0..9 {
        spawn(&mut world, if i % 2 == 0 { &[A] } else { &[A, B] }, if i % 3 == 0 { &[S] } else { &[] }, 9);
    }
    let dense = state(&registry(), &world, &[A], &[], Unfiltered);
    let sparse = state(&sparse_registry(), &world, &[A], &[], Unfiltered);
    let changed = state(&registry(), &world, &[A], &[], Changed { component_id: ComponentId::new(A) });
    assert!(dense.is_dense() && !sparse.is_dense());
    for size in [1usize, 2, 3, 5, 100] {
        let all = batches(&dense, &world.storages.tables, &world.archetypes, size);
        assert!(all.iter().all(|b| b.start < b.end && b.end - b.start <= size));
        let mut joined = Vec::new();
        for batch in &all {
            joined.extend(fetch_batch(&dense, &world.storages.tables, &world.archetypes, *batch, 0, 10));
        }
        assert_eq!(joined, collect(QueryIter::new(&world, &dense, 0, 10)));

        let all = batches(&sparse, &world.storages.tables, &world.archetypes, size);
        let mut joined = Vec::new();
        for batch in all.iter().rev() {
            let mut items =
                fetch_batch(&sparse, &world.storages.tables, &world.archetypes, *batch, 0, 10);
            items.extend(joined);
            joined = items;
        }
        assert_eq!(joined, collect(QueryIter::new(&world, &sparse, 0, 10)));

        let all = batches(&changed, &world.storages.tables, &world.archetypes, size);
        let mut joined = Vec::new();
        for batch in &all {
            joined.extend(fetch_batch(&changed, &world.storages.tables, &world.archetypes, *batch, 4, 10));
        }
        assert_eq!(joined, collect(QueryIter::new(&world, &changed, 4, 10)));
        assert_eq!(joined.len(), 9);
    }
    // the table of {A} holds entities 0, 1 and 3 and six of the new ones
    let all = batches(&dense, &world.storages.tables, &world.archetypes, 4);
    let spans: Vec<(usize, usize, usize)> = all.iter().map(|b| (b.position, b.start, b.end)).collect();
    assert_eq!(spans, vec![(0, 0, 4), (0, 4, 8), (1, 0, 4), (1, 4, 5)]);
    let first = fetch_batch(&dense, &world.storages.tables, &world.archetypes, all[1], 0, 10);
    assert_eq!(first.len(), 4);
    assert_eq!(first[0].table_row, 4);
    // a query that matches nothing has no batches
    let nothing = state(&registry(), &world, &[S], &[A], Unfiltered);
    assert!(batches(&nothing, &world.storages.tables, &world.archetypes, 4).is_empty());
}

#[test]
fn collecting_hands_back_every_combination_once() {
    let world = world_of(5);
    let state = state(&registry(), &world, &[A], &[], Unfiltered);
    let order = order_of_the_walk(&world, &state);
    let all = QueryCombinationIter::<Unfiltered, 3>::new(&world, &state, 0, 10).collect();
    assert_eq!(all.len(), 10);
    let seen: Vec<[u32; 3]> = all.iter().map(|items| items.map(|item| item.entity.index())).collect();
    assert_eq!(seen, combinations::<3>(&world, &state));
    // each combination is made of the items at three increasing places of the walk
    for items in &seen {
        let places: Vec<usize> =
            items.iter().map(|e| order.iter().position(|o| o == e).unwrap()).collect();
        assert!(places[0] < places[1] && places[1] < places[2]);
    }
    for (i, a) in seen.iter().enumerate() {
        for b in &seen[i + 1..] {
            assert_ne!(a, b);
        }
    }
    let mut spent = QueryCombinationIter::<Unfiltered, 3>::new(&world, &state, 0, 10);
    assert_eq!(spent.collect().len(), 10);
    assert!(spent.fetch_next().is_none());
    assert_eq!(QueryCombinationIter::<Unfiltered, 0>::new(&world, &state, 0, 10).collect().len(), 1);
    assert_eq!(QueryCombinationIter::<Unfiltered, 5>::new(&world, &state, 0, 10).collect().len(), 1);
    assert_eq!(QueryCombinationIter::<Unfiltered, 6>::new(&world, &state, 0, 10).collect().len(), 0);
}
