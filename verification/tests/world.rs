use ecs_core::archetype::{ArchetypeId, ComponentStatus};
use ecs_core::bundle::BundleId;
use ecs_core::component::{
    ComponentId, ComponentTicks, Components, StorageType, Tick, CHECK_TICK_THRESHOLD,
    MAX_CHANGE_AGE,
};
use ecs_core::entity::Entity;
use ecs_core::query::filter::Unfiltered;
use ecs_core::query::iter::{QueryIter, QueryManyIter};
use ecs_core::query::state::QueryState;
use ecs_core::world::World;

const A: usize = 0;
const B: usize = 1;
const S: usize = 2;

fn ids(indices: &[usize]) -> Vec<ComponentId> {
    indices.iter().map(|i| ComponentId::new(*i)).collect()
}

fn registry() -> Components {
    let mut components = Components::new();
    components.init_component(StorageType::Table, 2);
    components.init_component(StorageType::Table, 1);
    components.init_component(StorageType::SparseSet, 1);
    components
}

/// Checks at run time what the world promises: locations, archetype entries and
/// table rows name each other.
fn check(world: &World) {
    let mut entries = 0;
    for archetype in world.archetypes.iter() {
        let table = world.storages.tables.index(archetype.table_id());
        for (i, entry) in archetype.entities().iter().enumerate() {
            let location = world.entities.get(entry.entity()).unwrap();
            assert_eq!(location.archetype_id.index(), archetype.id().index());
            assert_eq!(location.index, i);
            assert_eq!(table.entities()[entry.table_row()], entry.entity());
            entries += 1;
        }
    }
    let mut rows = 0;
    for (t, table) in world.storages.tables.iter().iter().enumerate() {
        for (row, entity) in table.entities().iter().enumerate() {
            let location = world.entities.get(*entity).unwrap();
            let archetype = world.archetypes.index(location.archetype_id);
            assert_eq!(archetype.table_id().index(), t);
            assert_eq!(archetype.entity_table_row(location.index), row);
            rows += 1;
        }
    }
    assert_eq!(entries, rows);
}

fn value_of(world: &World, entity: Entity, component: usize) -> Option<Vec<u8>> {
    let location = world.entities.get(entity)?;
    let archetype = world.archetypes.index(location.archetype_id);
    let row = archetype.entity_table_row(location.index);
    world.storages.tables.index(archetype.table_id()).get(ComponentId::new(component), row).cloned()
}

fn ticks_of(world: &World, entity: Entity, component: usize) -> Option<ComponentTicks> {
    let location = world.entities.get(entity)?;
    let archetype = world.archetypes.index(location.archetype_id);
    let row = archetype.entity_table_row(location.index);
    world.storages.tables.index(archetype.table_id()).get_ticks(ComponentId::new(component), row)
}

#[test]
fn a_new_world_has_the_empty_archetype_and_the_empty_table() {
    let world = World::new();
    check(&world);
    assert_eq!(world.archetypes.len(), 1);
    assert_eq!(world.storages().tables.len(), 1);
    assert_eq!(world.entities.len(), 0);
    assert!(world.storages.resources.is_empty());
    assert!(world.storages.sparse_sets.get(ComponentId::new(S)).is_none());
    // the empty archetype has no entities, no components and no edges
    let empty = world.archetypes.index(ArchetypeId::empty());
    assert!(empty.is_empty());
    assert!(empty.components().is_empty());
    assert_eq!(empty.table_id().index(), 0);
    assert!(empty.edges().get_add_bundle(BundleId::new(0)).is_none());
    assert!(empty.edges().get_remove_bundle(BundleId::new(0)).is_none());
    assert!(empty.edges().get_remove_bundle_intersection(BundleId::new(0)).is_none());
    assert!(world.storages.tables.index(empty.table_id()).is_empty());
    assert_eq!(world.storages.tables.index(empty.table_id()).column_count(), 0);
    assert_eq!(world.components.len(), 0);
    assert_eq!(world.bundles.len(), 0);
}

#[test]
fn spawned_entities_are_placed_in_their_archetype() {
    let mut world = world_with_registry();
    let first = world.spawn(ids(&[A]), Vec::new(), vec![vec![1, 1]], Vec::new(), 1);
    let second = world.spawn(ids(&[A, B]), Vec::new(), vec![vec![2, 2], vec![2]], Vec::new(), 2);
    let third = world.spawn(ids(&[A]), ids(&[S]), vec![vec![3, 3]], vec![vec![0]], 3);
    let bare = world.spawn(Vec::new(), Vec::new(), Vec::new(), Vec::new(), 4);
    check(&world);
    assert_eq!(world.archetypes.len(), 4);
    assert_eq!(world.storages.tables.len(), 3);
    let locations: Vec<(usize, usize)> = [first, second, third, bare]
        .iter()
        .map(|e| world.entities.get(*e).unwrap())
        .map(|l| (l.archetype_id.index(), l.index))
        .collect();
    assert_eq!(locations, vec![(1, 0), (2, 0), (3, 0), (0, 0)]);
    // the archetypes {A} and {A, S} share the table of A
    assert_eq!(world.archetypes.index(ArchetypeId::new(3)).table_id().index(), 1);
    assert_eq!(world.archetypes.index(ArchetypeId::new(3)).entity_table_row(0), 1);
    assert_eq!(value_of(&world, third, A), Some(vec![3, 3]));
    assert_eq!(value_of(&world, second, B), Some(vec![2]));
    assert_eq!(value_of(&world, first, B), None);
    assert_eq!(ticks_of(&world, second, A), Some(ComponentTicks::new(2)));
    let again = world.archetype_for(ids(&[A]), ids(&[S]));
    assert_eq!(again.index(), 3);
    let other = world.spawn_in(again, vec![vec![4, 4]], 5);
    assert_eq!(world.entities.get(other).unwrap().index, 1);
    check(&world);
}

#[test]
fn despawning_moves_the_last_entity_into_the_gap() {
    let mut world = world_with_registry();
    let entities: Vec<Entity> =
        (0..4u8).map(|i| world.spawn(ids(&[A]), Vec::new(), vec![vec![i, i]], Vec::new(), 1)).collect();
    let shared = world.spawn(ids(&[A]), ids(&[S]), vec![vec![9, 9]], vec![vec![0]], 1);
    assert!(world.despawn(entities[1]));
    check(&world);
    assert!(!world.entities.contains(entities[1]));
    assert!(!world.despawn(entities[1]));
    // in the archetype the last entity of the archetype took the place
    let moved = world.entities.get(entities[3]).unwrap();
    assert_eq!((moved.archetype_id.index(), moved.index), (1, 1));
    // in the table the last row, which belongs to the other archetype, took the row
    let archetype = world.archetypes.index(ArchetypeId::new(2));
    assert_eq!(archetype.entities()[0].entity(), shared);
    assert_eq!(archetype.entity_table_row(0), 1);
    assert_eq!(world.archetypes.index(ArchetypeId::new(1)).entity_table_row(1), 3);
    // no other entity moved, and all values are still with their entities
    for (i, entity) in entities.iter().enumerate() {
        if i != 1 {
            assert_eq!(value_of(&world, *entity, A), Some(vec![i as u8, i as u8]));
        }
    }
    assert_eq!(world.entities.get(entities[0]).unwrap().index, 0);
    assert_eq!(world.entities.get(entities[2]).unwrap().index, 2);
    assert_eq!(value_of(&world, shared, A), Some(vec![9, 9]));
    // removing the last entity moves nothing
    assert!(world.despawn(entities[2]));
    check(&world);
    assert_eq!(world.entities.get(entities[3]).unwrap().index, 1);
    assert_eq!(world.entities.get(entities[0]).unwrap().index, 0);
    // a slot that is handed out again does not revive the old handle
    let reborn = world.spawn(ids(&[B]), Vec::new(), vec![vec![7]], Vec::new(), 2);
    assert_eq!(reborn.index(), entities[2].index());
    assert_eq!(reborn.generation(), 1);
    assert!(!world.despawn(entities[2]));
    assert!(world.entities.contains(reborn));
    check(&world);
    assert!(!world.despawn(Entity::from_raw(77)));
}

#[test]
fn an_entity_that_was_never_placed_can_be_despawned() {
    let mut world = world_with_registry();
    let loose = world.entities.allocate();
    let placed = world.spawn(ids(&[A]), Vec::new(), vec![vec![1, 1]], Vec::new(), 1);
    assert!(!world.move_entity(loose, ArchetypeId::empty(), Vec::new(), 1));
    assert!(world.despawn(loose));
    assert!(!world.entities.contains(loose));
    assert!(world.entities.contains(placed));
    check(&world);
}

#[test]
fn a_move_by_hand_fills_the_new_columns_and_closes_the_gap() {
    let components = registry();
    let mut world = world_with_registry();
    let bundle_b = world.init_bundle(ids(&[B]));

    // spawn E with A, and a neighbour that will be moved into its row
    let e = world.spawn(ids(&[A]), Vec::new(), vec![vec![1, 2]], Vec::new(), 1);
    let neighbour = world.spawn(ids(&[A]), Vec::new(), vec![vec![3, 4]], Vec::new(), 1);
    let archetype_a = world.entities.get(e).unwrap().archetype_id;

    let mut query_a = QueryState::new(&components, ids(&[A]), Vec::new(), Unfiltered);
    query_a.update_archetypes(&world.archetypes);
    let before = {
        let mut iter = QueryIter::new(&world, &query_a, 0, 1);
        let item = iter.next().unwrap();
        assert_eq!(item.entity, e);
        world.storages.tables.index(item.table_id).get(ComponentId::new(A), item.table_row).unwrap().clone()
    };
    assert_eq!(before, vec![1, 2]);

    // insert B on E: the edge is not cached yet, so the destination is looked up and cached
    assert!(world.archetypes.index(archetype_a).edges().get_add_bundle(bundle_b).is_none());
    let archetype_ab = world.archetype_for(ids(&[A, B]), Vec::new());
    world.archetypes.index_mut(archetype_a).edges_mut().insert_add_bundle(
        bundle_b,
        archetype_ab,
        vec![ComponentStatus::Added],
    );
    assert!(world.move_entity(e, archetype_ab, vec![vec![9]], 2));
    check(&world);

    // E's location points to the archetype with exactly {A, B}
    let location = world.entities.get(e).unwrap();
    assert_eq!(location.archetype_id.index(), archetype_ab.index());
    let archetype = world.archetypes.index(location.archetype_id);
    assert_eq!(archetype.components(), ids(&[A, B]));
    assert_eq!(archetype.entities()[location.index].entity(), e);
    // the table of that archetype has both columns
    let table = world.storages.tables.index(archetype.table_id());
    assert!(table.has_column(ComponentId::new(A)));
    assert!(table.has_column(ComponentId::new(B)));
    assert_eq!(table.column_count(), 2);
    // the query for A yields the same value as before
    query_a.update_archetypes(&world.archetypes);
    let mut seen = Vec::new();
    let mut iter = QueryIter::new(&world, &query_a, 0, 3);
    while let Some(item) = iter.next() {
        let value =
            world.storages.tables.index(item.table_id).get(ComponentId::new(A), item.table_row);
        seen.push((item.entity, value.unwrap().clone()));
    }
    assert_eq!(seen, vec![(neighbour, vec![3, 4]), (e, before)]);
    assert_eq!(value_of(&world, e, B), Some(vec![9]));
    // the value that was kept has its old ticks, the new one the tick of the insert
    assert_eq!(ticks_of(&world, e, A), Some(ComponentTicks::new(1)));
    assert_eq!(ticks_of(&world, e, B), Some(ComponentTicks::new(2)));
    // the neighbour took over E's place in the archetype and in the table
    let place = world.entities.get(neighbour).unwrap();
    assert_eq!((place.archetype_id.index(), place.index), (archetype_a.index(), 0));
    assert_eq!(world.archetypes.index(archetype_a).entity_table_row(0), 0);
    // the next insert of the same bundle finds the edge
    let edge = world.archetypes.index(archetype_a).edges().get_add_bundle(bundle_b).unwrap();
    assert_eq!(edge.archetype_id.index(), archetype_ab.index());
    // inserting the same bundle again is an overwrite in place: only the changed tick moves
    let row = archetype.entity_table_row(location.index);
    let table_id = archetype.table_id();
    assert!(world.storages.tables.index_mut(table_id).replace(ComponentId::new(B), row, vec![8], 5));
    assert_eq!(value_of(&world, e, B), Some(vec![8]));
    assert_eq!(
        ticks_of(&world, e, B),
        Some(ComponentTicks { added: Tick::new(2), changed: Tick::new(5) })
    );
    assert_eq!(world.entities.get(e).unwrap().archetype_id.index(), archetype_ab.index());
    check(&world);
}

fn world_with_registry() -> World {
    let mut world = World::new();
    world.init_component(StorageType::Table, 2);
    world.init_component(StorageType::Table, 1);
    world.init_component(StorageType::SparseSet, 1);
    world
}

fn cell_of(world: &World, entity: Entity, component: usize) -> Option<(Vec<u8>, ComponentTicks)> {
    let location = world.entities.get(entity)?;
    let archetype = world.archetypes.index(location.archetype_id);
    let id = ComponentId::new(component);
    match archetype.get_storage_type(id)? {
        StorageType::Table => {
            let row = archetype.entity_table_row(location.index);
            let table = world.storages.tables.index(archetype.table_id());
            Some((table.get(id, row)?.clone(), table.get_ticks(id, row)?))
        }
        StorageType::SparseSet => {
            let set = world.storages.sparse_sets.get(id)?;
            Some((set.get(entity)?.clone(), set.get_ticks(entity)?))
        }
    }
}

#[test]
fn a_bundle_adds_new_components_and_overwrites_old_ones() {
    let mut world = world_with_registry();
    let ab = world.init_bundle(ids(&[B, A]));
    let bs = world.init_bundle(ids(&[S, B]));
    let e = world.spawn(ids(&[A]), Vec::new(), vec![vec![1, 1]], Vec::new(), 1);
    let other = world.spawn(ids(&[A]), Vec::new(), vec![vec![2, 2]], Vec::new(), 1);
    let start = world.entities.get(e).unwrap().archetype_id;
    assert!(world.archetypes.index(start).edges().get_add_bundle(ab).is_none());

    // B is new, A is overwritten
    assert!(world.insert_bundle(e, ab, vec![vec![5], vec![6, 6]], 4));
    check(&world);
    let location = world.entities.get(e).unwrap();
    assert_eq!(world.archetypes.index(location.archetype_id).table_components(), ids(&[A, B]));
    assert_eq!(
        cell_of(&world, e, A),
        Some((vec![6, 6], ComponentTicks { added: Tick::new(1), changed: Tick::new(4) }))
    );
    assert_eq!(cell_of(&world, e, B), Some((vec![5], ComponentTicks::new(4))));
    assert_eq!(cell_of(&world, other, A), Some((vec![2, 2], ComponentTicks::new(1))));
    assert_eq!(cell_of(&world, other, B), None);
    // the edge is cached, with the status of each component of the bundle
    let edge = world.archetypes.index(start).edges().get_add_bundle(ab).unwrap();
    assert_eq!(edge.archetype_id.index(), location.archetype_id.index());
    assert_eq!(edge.bundle_status, vec![ComponentStatus::Added, ComponentStatus::Mutated]);

    // the same bundle again: the entity stays, both values are overwritten
    let archetypes = world.archetypes.len();
    assert!(world.insert_bundle(e, ab, vec![vec![7], vec![8, 8]], 6));
    check(&world);
    assert_eq!(world.archetypes.len(), archetypes);
    assert_eq!(world.entities.get(e).unwrap().archetype_id.index(), location.archetype_id.index());
    assert_eq!(
        cell_of(&world, e, A),
        Some((vec![8, 8], ComponentTicks { added: Tick::new(1), changed: Tick::new(6) }))
    );
    assert_eq!(
        cell_of(&world, e, B),
        Some((vec![7], ComponentTicks { added: Tick::new(4), changed: Tick::new(6) }))
    );

    // the other entity walks the cached edge
    assert!(world.insert_bundle(other, ab, vec![vec![9], vec![3, 3]], 7));
    check(&world);
    assert_eq!(world.archetypes.len(), archetypes);
    assert_eq!(world.entities.get(other).unwrap().archetype_id.index(), location.archetype_id.index());
    assert_eq!(cell_of(&world, other, B), Some((vec![9], ComponentTicks::new(7))));

    // a sparse-set component does not move the row
    let row_before = {
        let l = world.entities.get(e).unwrap();
        world.archetypes.index(l.archetype_id).entity_table_row(l.index)
    };
    assert!(world.insert_bundle(e, bs, vec![vec![4], vec![1]], 9));
    check(&world);
    let l = world.entities.get(e).unwrap();
    let archetype = world.archetypes.index(l.archetype_id);
    assert_eq!(archetype.sparse_set_components(), ids(&[S]));
    assert_eq!(archetype.table_components(), ids(&[A, B]));
    assert_eq!(archetype.entity_table_row(l.index), row_before);
    assert_eq!(cell_of(&world, e, S), Some((vec![4], ComponentTicks::new(9))));
    assert_eq!(
        cell_of(&world, e, B),
        Some((vec![1], ComponentTicks { added: Tick::new(4), changed: Tick::new(9) }))
    );
    assert_eq!(
        cell_of(&world, e, A),
        Some((vec![8, 8], ComponentTicks { added: Tick::new(1), changed: Tick::new(6) }))
    );
    // an entity that is not placed is refused
    assert!(!world.insert_bundle(Entity::from_raw(40), ab, vec![vec![0], vec![0, 0]], 9));
    assert!(world.insert_components(Entity::from_raw(40), ids(&[A]), vec![vec![0, 0]], 9).is_none());
    let single = world.insert_components(other, ids(&[S]), vec![vec![2]], 10).unwrap();
    assert_eq!(single.index(), 2);
    assert_eq!(cell_of(&world, other, S), Some((vec![2], ComponentTicks::new(10))));
    check(&world);
}

#[test]
fn a_removed_bundle_takes_only_what_the_entity_has() {
    let mut world = world_with_registry();
    let bs = world.init_bundle(ids(&[B, S]));
    let a_only = world.init_bundle(ids(&[A]));
    let all = world.init_bundle(ids(&[A, B, S]));
    let e = world.spawn(ids(&[A, B]), ids(&[S]), vec![vec![1, 1], vec![2]], vec![vec![0]], 1);
    let other = world.spawn(ids(&[A, B]), ids(&[S]), vec![vec![3, 3], vec![4]], vec![vec![0]], 1);
    world.storages.sparse_sets.insert(ComponentId::new(S), e, vec![5], 1);
    world.storages.sparse_sets.insert(ComponentId::new(S), other, vec![6], 1);
    assert_eq!(cell_of(&world, e, S), Some((vec![5], ComponentTicks::new(1))));

    assert!(world.remove_bundle(e, bs));
    check(&world);
    let location = world.entities.get(e).unwrap();
    let archetype = world.archetypes.index(location.archetype_id);
    assert_eq!(archetype.components(), ids(&[A]));
    assert_eq!(cell_of(&world, e, A), Some((vec![1, 1], ComponentTicks::new(1))));
    assert_eq!(cell_of(&world, e, B), None);
    assert_eq!(cell_of(&world, e, S), None);
    assert!(world.storages.sparse_sets.get(ComponentId::new(S)).unwrap().get(e).is_none());
    // the neighbour has moved into the row, with all it has
    assert_eq!(cell_of(&world, other, A), Some((vec![3, 3], ComponentTicks::new(1))));
    assert_eq!(cell_of(&world, other, B), Some((vec![4], ComponentTicks::new(1))));
    assert_eq!(cell_of(&world, other, S), Some((vec![6], ComponentTicks::new(1))));

    // removing what the entity does not have is a no-op, and is cached as such
    let archetypes = world.archetypes.len();
    assert!(world.remove_bundle(e, bs));
    check(&world);
    assert_eq!(world.archetypes.len(), archetypes);
    assert_eq!(world.entities.get(e).unwrap().archetype_id.index(), location.archetype_id.index());
    let cached = world
        .archetypes
        .index(location.archetype_id)
        .edges()
        .get_remove_bundle_intersection(bs)
        .unwrap()
        .unwrap();
    assert_eq!(cached.index(), location.archetype_id.index());
    assert_eq!(cell_of(&world, e, A), Some((vec![1, 1], ComponentTicks::new(1))));

    // removing every component leads to the empty archetype
    assert!(world.remove_bundle(e, a_only));
    check(&world);
    assert_eq!(world.entities.get(e).unwrap().archetype_id.index(), 0);
    assert_eq!(cell_of(&world, e, A), None);
    assert!(world.remove_bundle(other, all));
    check(&world);
    assert_eq!(world.entities.get(other).unwrap().archetype_id.index(), 0);
    assert_eq!(world.archetypes.empty().len(), 2);
    assert!(!world.remove_bundle(Entity::from_raw(40), all));
    // and back again
    assert!(world.insert_bundle(e, all, vec![vec![7, 7], vec![8], vec![9]], 3));
    check(&world);
    assert_eq!(cell_of(&world, e, A), Some((vec![7, 7], ComponentTicks::new(3))));
    assert_eq!(cell_of(&world, e, B), Some((vec![8], ComponentTicks::new(3))));
    assert_eq!(cell_of(&world, e, S), Some((vec![9], ComponentTicks::new(3))));
}

#[test]
fn bundles_keep_the_world_in_step() {
    let mut world = world_with_registry();
    let sets: [&[usize]; 6] = [&[A], &[B], &[S], &[B, A], &[S, A], &[A, B, S]];
    let bundles: Vec<BundleId> = sets.iter().map(|set| world.init_bundle(ids(set))).collect();
    let size = |component: usize| if component == A { 2 } else { 1 };
    let mut live: Vec<(Entity, [Option<u8>; 3])> = Vec::new();
    let mut seed = 99u32;
    let mut next = |bound: usize| {
        seed = seed.wrapping_mul(1_103_515_245).wrapping_add(12345);
        ((seed >> 16) as usize) % bound
    };
    for step in 0..300u32 {
        let tag = (step % 251) as u8;
        let action = next(5);
        if live.is_empty() || action == 0 {
            let entity = world.spawn(Vec::new(), Vec::new(), Vec::new(), Vec::new(), step);
            live.push((entity, [None; 3]));
        } else if action == 1 {
            let (entity, _) = live.swap_remove(next(live.len()));
            assert!(world.despawn(entity));
        } else if action == 2 {
            let which = next(live.len());
            let bundle = next(sets.len());
            assert!(world.remove_bundle(live[which].0, bundles[bundle]));
            for component in sets[bundle] {
                live[which].1[*component] = None;
                // dropping a sparse value is part of the removal
            }
        } else {
            let which = next(live.len());
            let bundle = next(sets.len());
            let values = sets[bundle].iter().map(|c| vec![tag; size(*c)]).collect();
            assert!(world.insert_bundle(live[which].0, bundles[bundle], values, step));
            for component in sets[bundle] {
                live[which].1[*component] = Some(tag);
            }
        }
        check(&world);
        for (entity, expected) in live.iter() {
            for component in [A, B, S] {
                let value = cell_of(&world, *entity, component).map(|(bytes, _)| bytes);
                assert_eq!(value, expected[component].map(|tag| vec![tag; size(component)]));
            }
        }
    }
    // there is one archetype for each set of components that was seen, at most
    assert!(world.archetypes.len() <= 8);
}

#[test]
fn a_change_of_sparse_components_keeps_the_table_row() {
    let mut world = world_with_registry();
    let first = world.spawn(ids(&[A]), Vec::new(), vec![vec![1, 1]], Vec::new(), 1);
    let second = world.spawn(ids(&[A]), Vec::new(), vec![vec![2, 2]], Vec::new(), 1);
    let with_sparse = world.archetype_for(ids(&[A]), ids(&[S]));
    world.storages.sparse_sets.insert(ComponentId::new(S), first, vec![5], 2);
    assert!(world.move_entity(first, with_sparse, Vec::new(), 2));
    check(&world);
    let location = world.entities.get(first).unwrap();
    assert_eq!((location.archetype_id.index(), location.index), (with_sparse.index(), 0));
    assert_eq!(world.archetypes.index(with_sparse).entity_table_row(0), 0);
    assert_eq!(world.storages.tables.index(world.archetypes.index(with_sparse).table_id()).entity_count(), 2);
    assert_eq!(value_of(&world, first, A), Some(vec![1, 1]));
    assert_eq!(value_of(&world, second, A), Some(vec![2, 2]));
    assert_eq!(world.entities.get(second).unwrap().index, 0);
    assert_eq!(
        world.storages.sparse_sets.get(ComponentId::new(S)).unwrap().get(first),
        Some(&vec![5])
    );
    // removing every component leads to the empty archetype, and drops the values
    assert!(world.storages.sparse_sets.remove(ComponentId::new(S), first).is_some());
    assert!(world.move_entity(first, ArchetypeId::empty(), Vec::new(), 3));
    check(&world);
    assert_eq!(world.entities.get(first).unwrap().archetype_id.index(), 0);
    assert_eq!(value_of(&world, first, A), None);
    assert_eq!(value_of(&world, second, A), Some(vec![2, 2]));
    assert_eq!(world.storages.tables.index(world.archetypes.index(with_sparse).table_id()).entity_count(), 1);
}

#[test]
fn the_world_stays_in_step_through_many_changes() {
    let mut world = world_with_registry();
    let kinds: [(&[usize], &[usize]); 5] =
        [(&[A], &[]), (&[A, B], &[]), (&[A], &[S]), (&[B], &[S]), (&[], &[])];
    let mut live: Vec<(Entity, usize, u8)> = Vec::new();
    let mut seed = 12345u32;
    let mut next = |bound: usize| {
        seed = seed.wrapping_mul(1_103_515_245).wrapping_add(12345);
        ((seed >> 16) as usize) % bound
    };
    for step in 0..400u32 {
        let action = next(4);
        if live.is_empty() || action == 0 || action == 1 {
            let kind = next(kinds.len());
            let tag = (step % 250) as u8;
            let values = kinds[kind].0.iter().map(|c| vec![tag; if *c == A { 2 } else { 1 }]).collect();
            let sparse = kinds[kind].1.iter().map(|_| vec![tag]).collect();
            let entity = world.spawn(ids(kinds[kind].0), ids(kinds[kind].1), values, sparse, step);
            live.push((entity, kind, tag));
        } else if action == 2 {
            let (entity, _, _) = live.swap_remove(next(live.len()));
            assert!(world.despawn(entity));
            assert!(!world.despawn(entity));
        } else {
            let which = next(live.len());
            let (entity, kind, tag) = live[which];
            let to = next(kinds.len());
            if to != kind {
                let destination = world.archetype_for(ids(kinds[to].0), ids(kinds[to].1));
                let added: Vec<Vec<u8>> = kinds[to]
                    .0
                    .iter()
                    .filter(|c| !kinds[kind].0.contains(c))
                    .map(|c| vec![tag; if *c == A { 2 } else { 1 }])
                    .collect();
                assert!(world.move_entity(entity, destination, added, step));
                live[which].1 = to;
            }
        }
        check(&world);
        for (entity, kind, tag) in live.iter() {
            let location = world.entities.get(*entity).unwrap();
            let archetype = world.archetypes.index(location.archetype_id);
            assert_eq!(archetype.table_components(), ids(kinds[*kind].0));
            assert_eq!(archetype.sparse_set_components(), ids(kinds[*kind].1));
            for component in kinds[*kind].0 {
                let expected = vec![*tag; if *component == A { 2 } else { 1 }];
                assert_eq!(value_of(&world, *entity, *component), Some(expected));
            }
        }
    }
    assert!(world.archetypes.len() <= 5);
    let components = registry();
    let mut query = QueryState::new(&components, ids(&[A]), Vec::new(), Unfiltered);
    query.update_archetypes(&world.archetypes);
    let mut iter = QueryIter::new(&world, &query, 0, 1);
    let mut found = 0;
    while let Some(item) = iter.next() {
        assert!(live.iter().any(|(entity, kind, _)| *entity == item.entity && kinds[*kind].0.contains(&A)));
        found += 1;
    }
    assert_eq!(found, live.iter().filter(|(_, kind, _)| kinds[*kind].0.contains(&A)).count());
    let list: Vec<Entity> = live.iter().map(|(entity, _, _)| *entity).collect();
    let mut many = QueryManyIter::new(&world, &query, list, 0, 1);
    let mut listed = 0;
    while many.fetch_next().is_some() {
        listed += 1;
    }
    assert_eq!(listed, found);
}

#[test]
fn despawning_drops_the_values_in_sparse_sets() {
    let mut world = world_with_registry();
    let first = world.spawn(ids(&[A]), ids(&[S]), vec![vec![1, 1]], vec![vec![0]], 1);
    let second = world.spawn(ids(&[A]), ids(&[S]), vec![vec![2, 2]], vec![vec![0]], 1);
    world.storages.sparse_sets.insert(ComponentId::new(S), first, vec![5], 1);
    world.storages.sparse_sets.insert(ComponentId::new(S), second, vec![6], 1);
    assert_eq!(world.storages.sparse_sets.get(ComponentId::new(S)).unwrap().len(), 2);
    assert!(world.despawn(first));
    check(&world);
    let set = world.storages.sparse_sets.get(ComponentId::new(S)).unwrap();
    assert_eq!(set.len(), 1);
    assert!(!set.contains(first));
    assert_eq!(cell_of(&world, first, S), None);
    assert_eq!(cell_of(&world, second, S), Some((vec![6], ComponentTicks::new(1))));
    assert_eq!(cell_of(&world, second, A), Some((vec![2, 2], ComponentTicks::new(1))));
}

#[test]
fn a_change_of_one_entity_leaves_the_values_of_the_others() {
    let mut world = world_with_registry();
    let b = world.init_bundle(ids(&[B]));
    let s = world.init_bundle(ids(&[S]));
    let a = world.init_bundle(ids(&[A]));
    let entities: Vec<Entity> =
        (0..5u8).map(|i| world.spawn(ids(&[A]), Vec::new(), vec![vec![i, i]], Vec::new(), 1)).collect();
    let expected: Vec<Option<(Vec<u8>, ComponentTicks)>> =
        (0..5u8).map(|i| Some((vec![i, i], ComponentTicks::new(1)))).collect();
    let others_kept = |world: &World, changed: usize| {
        for (i, e) in entities.iter().enumerate() {
            if i != changed {
                assert_eq!(cell_of(world, *e, A), expected[i]);
                assert_eq!(cell_of(world, *e, B), None);
                assert_eq!(cell_of(world, *e, S), None);
            }
        }
    };
    assert!(world.insert_bundle(entities[1], b, vec![vec![7]], 2));
    others_kept(&world, 1);
    assert!(world.insert_bundle(entities[1], s, vec![vec![8]], 3));
    others_kept(&world, 1);
    assert!(world.remove_bundle(entities[1], a));
    others_kept(&world, 1);
    assert_eq!(cell_of(&world, entities[1], A), None);
    assert_eq!(cell_of(&world, entities[1], B), Some((vec![7], ComponentTicks::new(2))));
    assert_eq!(cell_of(&world, entities[1], S), Some((vec![8], ComponentTicks::new(3))));
    assert!(world.despawn(entities[1]));
    others_kept(&world, 1);
    let again = world.spawn(ids(&[A]), Vec::new(), vec![vec![9, 9]], Vec::new(), 4);
    assert_eq!(again.index(), entities[1].index());
    others_kept(&world, 1);
    assert_eq!(cell_of(&world, again, S), None);
    check(&world);
}

#[test]
fn a_bundle_of_present_components_keeps_the_entity_in_place() {
    let mut world = world_with_registry();
    let ab = world.init_bundle(ids(&[A, B]));
    let none = world.init_bundle(ids(&[S]));
    let e = world.spawn(ids(&[A, B]), Vec::new(), vec![vec![1, 1], vec![2]], Vec::new(), 1);
    let before = world.entities.get(e).unwrap();
    let archetypes = world.archetypes.len();
    assert!(world.insert_bundle(e, ab, vec![vec![3, 3], vec![4]], 5));
    let after = world.entities.get(e).unwrap();
    assert_eq!((after.archetype_id.index(), after.index), (before.archetype_id.index(), before.index));
    assert_eq!(world.archetypes.len(), archetypes);
    assert_eq!(
        cell_of(&world, e, A),
        Some((vec![3, 3], ComponentTicks { added: Tick::new(1), changed: Tick::new(5) }))
    );
    // removing what the entity does not have changes nothing
    assert!(world.remove_bundle(e, none));
    let after = world.entities.get(e).unwrap();
    assert_eq!((after.archetype_id.index(), after.index), (before.archetype_id.index(), before.index));
    assert_eq!(
        cell_of(&world, e, B),
        Some((vec![4], ComponentTicks { added: Tick::new(1), changed: Tick::new(5) }))
    );
    // removing everything leads to the archetype without components
    assert!(world.remove_bundle(e, ab));
    assert_eq!(world.entities.get(e).unwrap().archetype_id.index(), 0);
    assert_eq!(cell_of(&world, e, A), None);
    check(&world);
}

#[test]
fn the_sweep_clamps_the_ticks_of_all_stored_values() {
    let mut world = world_with_registry();
    let old = world.spawn(ids(&[A]), ids(&[S]), vec![vec![1, 1]], vec![vec![0]], 10);
    world.storages.sparse_sets.insert(ComponentId::new(S), old, vec![5], 20);
    let now = 40 + MAX_CHANGE_AGE;
    let young = world.spawn(ids(&[A]), Vec::new(), vec![vec![2, 2]], Vec::new(), now - 3);
    world.check_change_ticks(now);
    check(&world);
    assert_eq!(cell_of(&world, old, A), Some((vec![1, 1], ComponentTicks::new(40))));
    assert_eq!(cell_of(&world, old, S), Some((vec![5], ComponentTicks::new(40))));
    assert_eq!(cell_of(&world, young, A), Some((vec![2, 2], ComponentTicks::new(now - 3))));
    // until the next sweep is due, a system that ran after the sweep does not
    // see the old value as changed
    let later = now.wrapping_add(2 * CHECK_TICK_THRESHOLD - 1);
    let ticks = cell_of(&world, old, A).unwrap().1;
    assert!(!ticks.is_changed(now, later));
    assert!(!ticks.is_changed(later, later));
    assert!(cell_of(&world, young, A).unwrap().1.is_changed(now - 5, now));
}

#[test]
fn inserting_a_component_moves_the_entity_to_the_archetype_with_both() {
    let mut world = world_with_registry();
    let bundle_b = world.init_bundle(ids(&[B]));
    let e = world.spawn(ids(&[A]), Vec::new(), vec![vec![1, 2]], Vec::new(), 1);
    let neighbour = world.spawn(ids(&[A]), Vec::new(), vec![vec![3, 4]], Vec::new(), 1);
    let archetype_a = world.entities.get(e).unwrap().archetype_id;

    let mut query_a = QueryState::new(&world.components, ids(&[A]), Vec::new(), Unfiltered);
    world.refresh(&mut query_a);
    let value_of_e = |world: &World, query: &QueryState<Unfiltered>| -> Vec<Vec<u8>> {
        let mut values = Vec::new();
        let mut iter = world.iter(query, 0, 9);
        while let Some(item) = iter.next() {
            if item.entity == e {
                let table = world.storages.tables.index(item.table_id);
                values.push(table.get(ComponentId::new(A), item.table_row).unwrap().clone());
            }
        }
        values
    };
    let before = value_of_e(&world, &query_a);
    assert_eq!(before, vec![vec![1, 2]]);

    assert!(world.insert_bundle(e, bundle_b, vec![vec![9]], 2));
    check(&world);

    // the location of E points to the archetype with exactly {A, B}
    let location = world.entities.get(e).unwrap();
    assert_ne!(location.archetype_id.index(), archetype_a.index());
    let archetype = world.archetypes.index(location.archetype_id);
    assert_eq!(archetype.components(), ids(&[A, B]));
    assert_eq!(archetype.table_components(), ids(&[A, B]));
    assert!(archetype.sparse_set_components().is_empty());
    assert_eq!(archetype.entities()[location.index].entity(), e);
    // the table of that archetype has both columns
    let table = world.storages.tables.index(archetype.table_id());
    assert!(table.has_column(ComponentId::new(A)));
    assert!(table.has_column(ComponentId::new(B)));
    assert_eq!(table.column_count(), 2);
    // the query for A yields the same value as before
    world.refresh(&mut query_a);
    assert_eq!(value_of_e(&world, &query_a), before);
    assert_eq!(cell_of(&world, e, A), Some((vec![1, 2], ComponentTicks::new(1))));
    assert_eq!(cell_of(&world, e, B), Some((vec![9], ComponentTicks::new(2))));
    assert_eq!(cell_of(&world, neighbour, A), Some((vec![3, 4], ComponentTicks::new(1))));
}

#[test]
fn a_query_that_rules_out_a_sparse_component_walks_archetypes() {
    let mut world = world_with_registry();
    let plain = world.spawn(ids(&[A]), Vec::new(), vec![vec![1, 1]], Vec::new(), 1);
    let marked = world.spawn(ids(&[A]), ids(&[S]), vec![vec![2, 2]], vec![vec![0]], 1);
    let other = world.spawn(ids(&[A, B]), Vec::new(), vec![vec![3, 3], vec![3]], Vec::new(), 1);
    // the two archetypes with the table of A differ only in the sparse component
    let walk = |world: &World, with: &[usize], without: &[usize]| -> (bool, Vec<Entity>) {
        let mut state = QueryState::new(&world.components, ids(with), ids(without), Unfiltered);
        world.refresh(&mut state);
        let mut seen = Vec::new();
        let mut iter = world.iter(&state, 0, 1);
        while let Some(item) = iter.next() {
            seen.push(item.entity);
        }
        (state.is_dense(), seen)
    };
    assert_eq!(walk(&world, &[A], &[S]), (false, vec![plain, other]));
    assert_eq!(walk(&world, &[A], &[]), (true, vec![plain, marked, other]));
    assert_eq!(walk(&world, &[A], &[B]), (true, vec![plain, marked]));
    assert_eq!(walk(&world, &[A, S], &[]), (false, vec![marked]));
    assert_eq!(walk(&world, &[], &[A]), (true, vec![]));
}

#[test]
fn a_list_of_entities_is_walked_in_its_order() {
    let mut world = world_with_registry();
    let first = world.spawn(ids(&[A]), Vec::new(), vec![vec![1, 1]], Vec::new(), 1);
    let second = world.spawn(ids(&[B]), Vec::new(), vec![vec![2]], Vec::new(), 1);
    let third = world.spawn(ids(&[A, B]), Vec::new(), vec![vec![3, 3], vec![3]], Vec::new(), 1);
    let mut state = QueryState::new(&world.components, ids(&[A]), Vec::new(), Unfiltered);
    world.refresh(&mut state);
    let gone = Entity::from_raw(77);
    let mut iter = world.iter_many(&state, vec![third, gone, second, first, third], 0, 1);
    let mut seen = Vec::new();
    while let Some(item) = iter.next() {
        seen.push(item.entity);
    }
    assert_eq!(seen, vec![third, first, third]);
}

#[test]
fn spawning_writes_the_values_of_sparse_components() {
    let mut world = world_with_registry();
    let e = world.spawn(ids(&[A]), ids(&[S]), vec![vec![1, 1]], vec![vec![5]], 3);
    assert_eq!(cell_of(&world, e, A), Some((vec![1, 1], ComponentTicks::new(3))));
    assert_eq!(cell_of(&world, e, S), Some((vec![5], ComponentTicks::new(3))));
    // where a component is named twice, the first value counts
    let twice = world.spawn(Vec::new(), ids(&[S, S]), Vec::new(), vec![vec![6], vec![7]], 4);
    assert_eq!(cell_of(&world, twice, S), Some((vec![6], ComponentTicks::new(4))));
    assert_eq!(cell_of(&world, e, S), Some((vec![5], ComponentTicks::new(3))));
    assert_eq!(world.storages.sparse_sets.get(ComponentId::new(S)).unwrap().len(), 2);
    check(&world);
}

#[test]
fn spawning_finds_the_archetype_whatever_the_order_of_the_lists() {
    let mut world = world_with_registry();
    let sorted = world.spawn(ids(&[A, B]), Vec::new(), vec![vec![1, 1], vec![2]], Vec::new(), 1);
    // the values follow the components in increasing order
    let turned = world.spawn(ids(&[B, A]), Vec::new(), vec![vec![3, 3], vec![4]], Vec::new(), 2);
    let twice = world.spawn(ids(&[B, A, B]), Vec::new(), vec![vec![5, 5], vec![6]], Vec::new(), 3);
    check(&world);
    let archetype = world.entities.get(sorted).unwrap().archetype_id.index();
    assert_eq!(world.entities.get(turned).unwrap().archetype_id.index(), archetype);
    assert_eq!(world.entities.get(twice).unwrap().archetype_id.index(), archetype);
    assert_eq!(world.archetypes.len(), 2);
    assert_eq!(world.storages.tables.len(), 2);
    assert_eq!(cell_of(&world, turned, A), Some((vec![3, 3], ComponentTicks::new(2))));
    assert_eq!(cell_of(&world, turned, B), Some((vec![4], ComponentTicks::new(2))));
    assert_eq!(cell_of(&world, twice, A), Some((vec![5, 5], ComponentTicks::new(3))));
    assert_eq!(cell_of(&world, twice, B), Some((vec![6], ComponentTicks::new(3))));
    assert_eq!(world.archetype_for(ids(&[B, A]), Vec::new()).index(), archetype);
    assert_eq!(world.archetypes.len(), 2);
    // a bundle in another order leads to the same archetype
    let ba = world.init_bundle(ids(&[B, A]));
    let bare = world.spawn(Vec::new(), Vec::new(), Vec::new(), Vec::new(), 4);
    assert!(world.insert_bundle(bare, ba, vec![vec![7], vec![8, 8]], 5));
    assert_eq!(world.entities.get(bare).unwrap().archetype_id.index(), archetype);
    check(&world);
}
