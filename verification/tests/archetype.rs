use ecs_core::archetype::{
    Archetype, ArchetypeComponentId, ArchetypeGeneration, ArchetypeId, Archetypes,
    BundleComponentStatus, ComponentStatus, Edges, SpawnBundleStatus,
};
use ecs_core::bundle::BundleId;
use ecs_core::component::{ComponentId, StorageType};
use ecs_core::entity::Entity;
use ecs_core::storage::table::TableId;

fn ids(indices: &[usize]) -> Vec<ComponentId> {
    indices.iter().map(|i| ComponentId::new(*i)).collect()
}

#[test]
fn test_archetyype_component_id_size_optimized() {
    assert_eq!(
        core::mem::size_of::<ArchetypeComponentId>(),
        core::mem::size_of::<Option<ArchetypeComponentId>>(),
    );
}

#[test]
fn archetype_id_size_optimized() {
    assert_eq!(
        core::mem::size_of::<ArchetypeId>(),
        core::mem::size_of::<Option<ArchetypeId>>(),
    );
    assert_eq!(core::mem::size_of::<ArchetypeId>(), 4);
}

#[test]
fn archetype_id_round_trips_its_index() {
    assert_eq!(ArchetypeId::new(7).index(), 7);
    assert_eq!(ArchetypeId::new_unchecked(9).index(), 9);
    assert_eq!(ArchetypeId::empty().index(), 0);
    assert_eq!(ArchetypeId::new(u32::MAX as usize - 1).index(), u32::MAX as usize - 1);
}

#[test]
fn archetype_component_id_round_trips_its_index() {
    assert_eq!(ArchetypeComponentId::new(0).index(), 0);
    assert_eq!(ArchetypeComponentId::new(41).index(), 41);
    assert_eq!(ArchetypeComponentId::new(41).sparse_set_index(), 41);
    assert_eq!(ArchetypeComponentId::get_sparse_set_index(5).index(), 5);
    assert_eq!(ArchetypeComponentId::new_unchecked(6).index(), 6);
}

#[test]
fn new_collection_holds_the_empty_archetype() {
    let archetypes = Archetypes::new();
    assert_eq!(archetypes.len(), 1);
    assert!(!archetypes.is_empty());
    assert_eq!(archetypes.generation().value(), 1);
    assert_eq!(archetypes.archetype_components_len(), 0);
    let empty = archetypes.empty();
    assert_eq!(empty.id().index(), 0);
    assert_eq!(empty.table_id(), TableId::empty());
    assert!(empty.is_empty());
    assert_eq!(empty.components().len(), 0);
    let by_default = Archetypes::default();
    assert_eq!(by_default.len(), 1);
}

#[test]
fn empty_identity_is_the_empty_archetype() {
    let mut archetypes = Archetypes::new();
    let id = archetypes.get_id_or_insert(TableId::new(3), Vec::new(), Vec::new());
    assert_eq!(id.index(), 0);
    assert_eq!(archetypes.len(), 1);
    // an existing archetype keeps its table
    assert_eq!(archetypes.empty().table_id(), TableId::empty());
}

#[test]
fn same_components_give_the_same_archetype() {
    let mut archetypes = Archetypes::new();
    let first = archetypes.get_id_or_insert(TableId::new(1), ids(&[1, 2]), ids(&[7]));
    let other = archetypes.get_id_or_insert(TableId::new(2), ids(&[1, 3]), ids(&[7]));
    let again = archetypes.get_id_or_insert(TableId::new(1), ids(&[1, 2]), ids(&[7]));
    let split = archetypes.get_id_or_insert(TableId::new(1), ids(&[1]), ids(&[2, 7]));
    assert_eq!(first.index(), 1);
    assert_eq!(other.index(), 2);
    assert_eq!(again.index(), first.index());
    assert_eq!(split.index(), 3);
    assert_eq!(archetypes.len(), 4);
}

#[test]
fn ids_stay_valid_while_the_collection_grows() {
    let mut archetypes = Archetypes::new();
    let first = archetypes.get_id_or_insert(TableId::new(1), ids(&[4]), Vec::new());
    let table_before = archetypes.index(first).table_id();
    let slot_before =
        archetypes.index(first).get_archetype_component_id(ComponentId::new(4)).unwrap().index();
    let mut issued = vec![0, first.index()];
    for i in 0..20 {
        let id = archetypes.get_id_or_insert(TableId::new(2 + i), ids(&[4, 10 + i]), Vec::new());
        assert!(!issued.contains(&id.index()));
        assert_eq!(id.index(), issued.len());
        issued.push(id.index());
    }
    assert_eq!(archetypes.get_id_or_insert(TableId::new(1), ids(&[4]), Vec::new()).index(), 1);
    assert_eq!(archetypes.index(first).table_id(), table_before);
    assert_eq!(
        archetypes.index(first).get_archetype_component_id(ComponentId::new(4)).unwrap().index(),
        slot_before
    );
    assert_eq!(archetypes.generation().value(), 22);
}

#[test]
fn archetype_component_ids_number_table_components_first() {
    let mut archetypes = Archetypes::new();
    let first = archetypes.get_id_or_insert(TableId::new(1), ids(&[5, 6]), ids(&[9]));
    let second = archetypes.get_id_or_insert(TableId::new(2), ids(&[5]), ids(&[8, 9]));
    assert_eq!(archetypes.archetype_components_len(), 6);
    let a = archetypes.index(first);
    assert_eq!(a.get_archetype_component_id(ComponentId::new(5)).unwrap().index(), 0);
    assert_eq!(a.get_archetype_component_id(ComponentId::new(6)).unwrap().index(), 1);
    assert_eq!(a.get_archetype_component_id(ComponentId::new(9)).unwrap().index(), 2);
    assert_eq!(a.get_storage_type(ComponentId::new(5)), Some(StorageType::Table));
    assert_eq!(a.get_storage_type(ComponentId::new(9)), Some(StorageType::SparseSet));
    assert_eq!(a.get_storage_type(ComponentId::new(7)), None);
    assert!(a.get_archetype_component_id(ComponentId::new(7)).is_none());
    let b = archetypes.index(second);
    assert_eq!(b.get_archetype_component_id(ComponentId::new(5)).unwrap().index(), 3);
    assert_eq!(b.get_archetype_component_id(ComponentId::new(8)).unwrap().index(), 4);
    assert_eq!(b.get_archetype_component_id(ComponentId::new(9)).unwrap().index(), 5);
    assert_eq!(a.table_components(), ids(&[5, 6]));
    assert_eq!(a.sparse_set_components(), ids(&[9]));
    assert_eq!(b.components(), ids(&[5, 8, 9]));
    assert!(a.contains(ComponentId::new(6)));
    assert!(!b.contains(ComponentId::new(6)));
}

#[test]
fn get_returns_none_for_an_id_that_was_not_issued() {
    let archetypes = Archetypes::new();
    assert!(archetypes.get(ArchetypeId::new(0)).is_some());
    assert!(archetypes.get(ArchetypeId::new(1)).is_none());
    assert_eq!(archetypes.iter().len(), 1);
}

fn archetype_with_entities(n: u32) -> Archetype {
    let mut archetype = Archetype::new(ArchetypeId::new(3), TableId::new(2), Vec::new(), Vec::new());
    for i in 0..n {
        let location = archetype.allocate(Entity::from_raw(10 + i), 100 + i as usize);
        assert_eq!(location.index, i as usize);
        assert_eq!(location.archetype_id.index(), 3);
    }
    archetype
}

#[test]
fn swap_remove_of_the_last_entity_moves_nothing() {
    let mut archetype = archetype_with_entities(4);
    let result = archetype.swap_remove(3);
    assert_eq!(result.swapped_entity, None);
    assert_eq!(result.table_row, 103);
    assert_eq!(archetype.len(), 3);
    for i in 0..3 {
        assert_eq!(archetype.entities()[i].entity(), Entity::from_raw(10 + i as u32));
        assert_eq!(archetype.entities()[i].table_row(), 100 + i);
    }
}

#[test]
fn swap_remove_of_an_inner_entity_moves_the_last_one_only() {
    let mut archetype = archetype_with_entities(4);
    let result = archetype.swap_remove(1);
    assert_eq!(result.swapped_entity, Some(Entity::from_raw(13)));
    assert_eq!(result.table_row, 101);
    assert_eq!(archetype.len(), 3);
    assert_eq!(archetype.entities()[0].entity(), Entity::from_raw(10));
    assert_eq!(archetype.entities()[1].entity(), Entity::from_raw(13));
    assert_eq!(archetype.entity_table_row(1), 103);
    assert_eq!(archetype.entities()[2].entity(), Entity::from_raw(12));
}

#[test]
fn swap_remove_of_the_only_entity_empties_the_archetype() {
    let mut archetype = archetype_with_entities(1);
    let result = archetype.swap_remove(0);
    assert_eq!(result.swapped_entity, None);
    assert_eq!(result.table_row, 100);
    assert!(archetype.is_empty());
}

#[test]
fn table_rows_can_be_rewritten_and_entities_cleared() {
    let mut archetype = archetype_with_entities(2);
    archetype.set_entity_table_row(1, 55);
    assert_eq!(archetype.entity_table_row(1), 55);
    assert_eq!(archetype.entities()[1].entity(), Entity::from_raw(11));
    archetype.reserve(10);
    assert_eq!(archetype.len(), 2);
    archetype.clear_entities();
    assert_eq!(archetype.len(), 0);
    let mut archetypes = Archetypes::new();
    archetypes.empty_mut().allocate(Entity::from_raw(1), 0);
    assert_eq!(archetypes.empty().len(), 1);
    archetypes.clear_entities();
    assert_eq!(archetypes.empty().len(), 0);
}

#[test]
fn a_missing_edge_is_a_cache_miss() {
    let mut edges = Edges::new();
    assert!(edges.get_add_bundle(BundleId::new(2)).is_none());
    assert_eq!(edges.get_remove_bundle(BundleId::new(2)), None);
    assert_eq!(edges.get_remove_bundle_intersection(BundleId::new(2)), None);
    edges.insert_add_bundle(
        BundleId::new(2),
        ArchetypeId::new(5),
        vec![ComponentStatus::Added, ComponentStatus::Mutated],
    );
    edges.insert_remove_bundle(BundleId::new(2), None);
    edges.insert_remove_bundle_intersection(BundleId::new(4), Some(ArchetypeId::new(1)));
    let add = edges.get_add_bundle(BundleId::new(2)).unwrap();
    assert_eq!(add.archetype_id.index(), 5);
    assert_eq!(add.get_status(0), ComponentStatus::Added);
    assert_eq!(add.get_status(1), ComponentStatus::Mutated);
    assert_eq!(edges.get_remove_bundle(BundleId::new(2)), Some(None));
    assert_eq!(edges.get_remove_bundle(BundleId::new(4)), None);
    assert_eq!(
        edges.get_remove_bundle_intersection(BundleId::new(4)).unwrap().unwrap().index(),
        1
    );
    assert!(edges.get_add_bundle(BundleId::new(0)).is_none());
    assert!(Edges::default().get_add_bundle(BundleId::new(2)).is_none());
}

#[test]
fn edges_are_filled_through_the_archetype() {
    let mut archetypes = Archetypes::new();
    let target = archetypes.get_id_or_insert(TableId::new(1), ids(&[1]), Vec::new());
    archetypes.empty_mut().edges_mut().insert_add_bundle(
        BundleId::new(0),
        target,
        vec![ComponentStatus::Added],
    );
    let edge = archetypes.empty().edges().get_add_bundle(BundleId::new(0)).unwrap();
    assert_eq!(edge.archetype_id.index(), target.index());
    assert!(archetypes.index(target).edges().get_add_bundle(BundleId::new(0)).is_none());
}

#[test]
fn spawned_components_are_always_added() {
    assert_eq!(SpawnBundleStatus.get_status(0), ComponentStatus::Added);
    assert_eq!(SpawnBundleStatus.get_status(17), ComponentStatus::Added);
}

#[test]
fn generation_starts_at_zero() {
    assert_eq!(ArchetypeGeneration::initial().value(), 0);
    assert_eq!(ArchetypeGeneration::initial(), ArchetypeGeneration(0));
}

#[test]
fn the_order_of_the_components_makes_no_difference() {
    let mut archetypes = Archetypes::new();
    let first = archetypes.get_id_or_insert(TableId::new(1), ids(&[1, 2, 5]), ids(&[7, 9]));
    let n = archetypes.len();
    let count = archetypes.archetype_components_len();
    for (table, sparse) in [
        (ids(&[5, 2, 1]), ids(&[9, 7])),
        (ids(&[2, 5, 1]), ids(&[7, 9])),
        (ids(&[1, 1, 2, 5, 2]), ids(&[9, 9, 7])),
    ] {
        let again = archetypes.get_id_or_insert(TableId::new(4), table, sparse);
        assert_eq!(again.index(), first.index());
        assert_eq!(archetypes.len(), n);
        assert_eq!(archetypes.archetype_components_len(), count);
    }
    // the archetype lists its components in increasing order
    assert_eq!(archetypes.index(first).table_components(), ids(&[1, 2, 5]));
    assert_eq!(archetypes.index(first).sparse_set_components(), ids(&[7, 9]));
    let unsorted = archetypes.get_id_or_insert(TableId::new(2), ids(&[8, 3]), ids(&[6, 4, 6]));
    assert_eq!(unsorted.index(), n);
    assert_eq!(archetypes.index(unsorted).table_components(), ids(&[3, 8]));
    assert_eq!(archetypes.index(unsorted).sparse_set_components(), ids(&[4, 6]));
    assert_eq!(archetypes.archetype_components_len(), count + 4);
    // another set is another archetype
    let other = archetypes.get_id_or_insert(TableId::new(1), ids(&[5, 2]), ids(&[9, 7]));
    assert_ne!(other.index(), first.index());
    // a component that moves from one list to the other makes another archetype
    let moved = archetypes.get_id_or_insert(TableId::new(1), ids(&[1, 2]), ids(&[5, 7, 9]));
    assert_ne!(moved.index(), first.index());
}

#[test]
fn the_default_collection_is_the_new_one() {
    let archetypes = Archetypes::default();
    assert_eq!(archetypes.len(), 1);
    assert!(!archetypes.is_empty());
    assert_eq!(archetypes.generation().value(), 1);
    assert_eq!(archetypes.archetype_components_len(), 0);
    let empty = archetypes.empty();
    assert_eq!(empty.id().index(), ArchetypeId::empty().index());
    assert_eq!(empty.table_id().index(), TableId::empty().index());
    assert!(empty.components().is_empty());
    assert_eq!(empty.len(), 0);
    assert!(empty.edges().get_add_bundle(BundleId::new(0)).is_none());
    assert!(empty.edges().get_remove_bundle(BundleId::new(0)).is_none());
    assert!(empty.edges().get_remove_bundle_intersection(BundleId::new(0)).is_none());
}
