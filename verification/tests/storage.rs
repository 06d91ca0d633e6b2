use ecs_core::archetype::ArchetypeComponentId;
use ecs_core::component::{
    ComponentId, ComponentTicks, Components, StorageType, Tick, MAX_CHANGE_AGE,
};
use ecs_core::entity::Entity;
use ecs_core::storage::column::{Cell, Column};
use ecs_core::storage::resource::{ResourceData, Resources};
use ecs_core::storage::sparse_components::{ComponentSparseSet, SparseSets};
use ecs_core::storage::sparse_set::{SparseArray, SparseSet};
use ecs_core::storage::table::{Table, TableId, Tables};
use ecs_core::storage::vec32::Vec32;

fn ids(indices: &[usize]) -> Vec<ComponentId> {
    indices.iter().map(|i| ComponentId::new(*i)).collect()
}

#[test]
fn a_new_vec32_is_empty() {
    let v: Vec32<u8> = Vec32::new();
    assert_eq!((v.len(), v.capacity()), (0, 0));
    assert!(v.is_empty());
    assert!(v.get(0).is_none());
    assert_eq!(v.as_ptr().len(), 0);
    let w: Vec32<u8> = Vec32::with_capacity(7);
    assert_eq!((w.len(), w.capacity()), (0, 7));
    let d: Vec32<u8> = Vec32::default();
    assert_eq!((d.len(), d.capacity()), (0, 0));
}

#[test]
fn a_full_vec32_grows_to_the_next_power_of_two() {
    let mut v = Vec32::new();
    let mut capacities = Vec::new();
    for i in 0..9u32 {
        v.push(i * 10);
        capacities.push(v.capacity());
    }
    assert_eq!(capacities, vec![1, 2, 4, 4, 8, 8, 8, 8, 16]);
    assert_eq!(v.len(), 9);
    assert_eq!(v.get(8), Some(&80));
    assert_eq!(v.get(9), None);
    assert_eq!(v.as_ptr(), &[0, 10, 20, 30, 40, 50, 60, 70, 80]);
    assert_eq!(v.deref(), v.as_ptr());
    let mut w = Vec32::with_capacity(3);
    for i in 0..4u8 {
        w.push_unchecked(i);
    }
    assert_eq!(w.capacity(), 4);
    let mut x = Vec32::with_capacity(5);
    for i in 0..6u8 {
        x.push(i);
    }
    assert_eq!(x.capacity(), 8);
}

#[test]
fn reserve_makes_room_once() {
    let mut v: Vec32<u8> = Vec32::new();
    v.reserve(0);
    assert_eq!(v.capacity(), 0);
    v.reserve(5);
    assert_eq!(v.capacity(), 8);
    v.reserve(8);
    assert_eq!(v.capacity(), 8);
    v.push(1);
    v.reserve(8);
    assert_eq!(v.capacity(), 16);
    v.reserve(15);
    assert_eq!(v.capacity(), 16);
    v.reserve(16);
    assert_eq!(v.capacity(), 32);
    assert_eq!(v.len(), 1);
    assert_eq!(v.get(0), Some(&1));
}

#[test]
fn swap_remove_moves_the_last_element_into_the_gap() {
    let mut v = Vec32::new();
    for i in 0..5u8 {
        v.push(i);
    }
    assert_eq!(v.swap_remove_unchecked(1), 1);
    assert_eq!(v.as_ptr(), &[0, 4, 2, 3]);
    assert_eq!(v.swap_remove_unchecked(3), 3);
    assert_eq!(v.as_ptr(), &[0, 4, 2]);
    assert_eq!(v.len(), 3);
    assert_eq!(v.capacity(), 8);
    *v.get_mut(2).unwrap() = 9;
    assert!(v.get_mut(3).is_none());
    assert_eq!(v.as_ptr(), &[0, 4, 9]);
    v.clear();
    assert!(v.is_empty());
    assert_eq!(v.capacity(), 8);
}

#[test]
fn a_sparse_array_has_holes() {
    let mut array = SparseArray::new();
    assert!(!array.contains(3));
    array.insert(3, 'c');
    array.insert(0, 'a');
    assert_eq!(array.get(3), Some(&'c'));
    assert_eq!(array.get(1), None);
    assert_eq!(array.get(100), None);
    array.insert(3, 'd');
    assert_eq!(array.get(3), Some(&'d'));
    assert_eq!(array.remove(3), Some('d'));
    assert_eq!(array.remove(3), None);
    assert_eq!(array.remove(50), None);
    assert!(array.contains(0));
}

#[test]
fn a_sparse_set_keeps_insertion_order() {
    let mut set = SparseSet::with_capacity(2);
    assert!(set.is_empty());
    set.insert(9, "nine");
    set.insert(2, "two");
    set.insert(9, "neun");
    set.insert(5, "five");
    assert_eq!(set.len(), 3);
    assert_eq!((set.key_at(0), set.key_at(1), set.key_at(2)), (9, 2, 5));
    assert_eq!(*set.value_at(0), "neun");
    assert_eq!(set.get(2), Some(&"two"));
    assert_eq!(set.get(3), None);
    assert!(set.contains(5));
    *set.get_mut(5).unwrap() = "cinq";
    *set.value_at_mut(1) = "deux";
    set.set_value_at(0, "nove");
    assert_eq!((*set.value_at(0), *set.value_at(1), *set.value_at(2)), ("nove", "deux", "cinq"));
    assert!(set.get_mut(4).is_none());
    assert!(SparseSet::<u8>::new().is_empty());
}

#[test]
fn a_removed_value_is_replaced_by_the_last_one() {
    let mut set = SparseSet::new();
    for key in [9usize, 2, 5, 7] {
        set.insert(key, key * 10);
    }
    assert_eq!(set.remove(2), Some(20));
    assert_eq!(set.remove(2), None);
    assert_eq!(set.len(), 3);
    assert_eq!((set.key_at(0), set.key_at(1), set.key_at(2)), (9, 7, 5));
    assert_eq!(set.get(7), Some(&70));
    assert_eq!(set.get(5), Some(&50));
    assert_eq!(set.remove(5), Some(50));
    assert_eq!((set.key_at(0), set.key_at(1)), (9, 7));
    assert_eq!(set.remove(9), Some(90));
    assert_eq!(set.remove(7), Some(70));
    assert!(set.is_empty());
    assert!(!set.contains(7));
    set.insert(7, 71);
    assert_eq!(set.get(7), Some(&71));
}

#[test]
fn sparse_values_are_found_by_entity() {
    let mut set = ComponentSparseSet::new();
    assert!(set.is_empty());
    let first = Entity { index: 3, generation: 0 };
    let reused = Entity { index: 3, generation: 1 };
    let other = Entity::from_raw(8);
    set.insert(first, vec![1], 5);
    set.insert(other, vec![2], 6);
    assert_eq!(set.len(), 2);
    assert!(set.contains(first));
    assert!(!set.contains(reused));
    assert_eq!(set.get(first), Some(&vec![1]));
    assert_eq!(set.get(reused), None);
    assert_eq!(set.get_ticks(other), Some(ComponentTicks::new(6)));
    assert_eq!(set.get_ticks(reused), None);
    // the slot's new entity takes the place of the old one
    set.insert(reused, vec![3], 7);
    assert_eq!(set.len(), 2);
    assert_eq!(set.get(first), None);
    assert_eq!(set.get(reused), Some(&vec![3]));
    assert!(set.remove(first).is_none());
    let removed = set.remove(reused).unwrap();
    assert_eq!((removed.value, removed.ticks), (vec![3], ComponentTicks::new(7)));
    assert!(set.remove(reused).is_none());
    assert_eq!(set.get(other), Some(&vec![2]));
    assert_eq!(set.len(), 1);
}

#[test]
fn each_sparse_component_has_its_own_set() {
    let mut sets = SparseSets::new();
    let (a, b) = (ComponentId::new(4), ComponentId::new(6));
    let entity = Entity::from_raw(1);
    assert!(sets.get(a).is_none());
    sets.insert(a, entity, vec![1], 2);
    sets.get_or_insert(b);
    sets.get_or_insert(a);
    assert_eq!(sets.get(a).unwrap().get(entity), Some(&vec![1]));
    assert!(sets.get(b).unwrap().is_empty());
    sets.insert(b, entity, vec![9], 3);
    sets.insert(a, Entity::from_raw(2), vec![5], 3);
    assert_eq!(sets.get(a).unwrap().len(), 2);
    assert!(sets.remove(ComponentId::new(5), entity).is_none());
    assert!(sets.remove(b, Entity::from_raw(2)).is_none());
    assert_eq!(sets.remove(a, entity).unwrap().value, vec![1]);
    assert_eq!(sets.get(a).unwrap().get(Entity::from_raw(2)), Some(&vec![5]));
    assert_eq!(sets.get(b).unwrap().get(entity), Some(&vec![9]));
}

fn cell(value: u8, tick: u32) -> Cell {
    Cell { value: vec![value], ticks: ComponentTicks::new(tick) }
}

#[test]
fn a_column_keeps_one_cell_for_each_row() {
    let mut column = Column::new();
    assert!(column.is_empty());
    column.push(cell(1, 10));
    column.push(cell(2, 20));
    column.push(cell(3, 30));
    assert_eq!(column.len(), 3);
    let removed = column.swap_remove(0);
    assert_eq!((removed.value, removed.ticks), (vec![1], ComponentTicks::new(10)));
    assert_eq!(column.get_data(0), &vec![3]);
    assert_eq!(column.get_ticks(0), ComponentTicks::new(30));
    assert_eq!(column.get_data(1), &vec![2]);
    column.replace(1, vec![7], 40);
    assert_eq!(column.get_data(1), &vec![7]);
    assert_eq!(
        column.get_ticks(1),
        ComponentTicks { added: Tick::new(20), changed: Tick::new(40) }
    );
    column.check_change_ticks(35 + MAX_CHANGE_AGE);
    assert_eq!(column.get_ticks(0), ComponentTicks::new(35));
    assert_eq!(
        column.get_ticks(1),
        ComponentTicks { added: Tick::new(35), changed: Tick::new(40) }
    );
    column.clear();
    assert_eq!(column.len(), 0);
}

#[test]
fn two_tables_can_be_changed_at_once() {
    let mut tables = Tables::new();
    let a = tables.get_id_or_insert(ids(&[1]));
    let b = tables.get_id_or_insert(ids(&[1, 2]));
    {
        let (first, second) = tables.get_2_mut(b, a);
        assert_eq!((first.column_count(), second.column_count()), (2, 1));
        first.allocate(Entity::from_raw(0), vec![vec![1], vec![2]], 1);
        second.allocate(Entity::from_raw(1), vec![vec![3]], 1);
    }
    {
        let (first, second) = tables.get_2_mut(a, b);
        assert_eq!(first.entities(), &[Entity::from_raw(1)]);
        assert_eq!(second.entities(), &[Entity::from_raw(0)]);
    }
    let mut archetypes = ecs_core::archetype::Archetypes::new();
    let x = archetypes.get_id_or_insert(a, ids(&[1]), Vec::new());
    let (empty, other) = archetypes.get_2_mut(ecs_core::archetype::ArchetypeId::empty(), x);
    assert_eq!((empty.id().index(), other.id().index()), (0, 1));
    let (other, empty) = archetypes.get_2_mut(x, ecs_core::archetype::ArchetypeId::empty());
    assert_eq!((empty.id().index(), other.id().index()), (0, 1));
}

#[test]
fn tables_are_found_by_their_columns() {
    let mut tables = Tables::new();
    assert_eq!(tables.len(), 1);
    assert!(!tables.is_empty());
    assert_eq!(tables.get_id_or_insert(Vec::new()), TableId::empty());
    let a = tables.get_id_or_insert(ids(&[1, 2]));
    let b = tables.get_id_or_insert(ids(&[2]));
    assert_eq!((a, b), (TableId::new(1), TableId::new(2)));
    assert_eq!(tables.get_id_or_insert(ids(&[1, 2])), a);
    assert_eq!(tables.len(), 3);
    assert_eq!(tables.iter().len(), 3);
    assert!(tables.get(TableId::new(3)).is_none());
    let table = tables.get(a).unwrap();
    assert!(table.has_column(ComponentId::new(1)));
    assert!(!table.has_column(ComponentId::new(3)));
    assert_eq!(table.column_count(), 2);
    assert!(table.is_empty());
    assert_eq!(Tables::default().len(), 1);
    assert_eq!(TableId::new(4).index(), 4);
}

#[test]
fn a_table_row_holds_one_value_in_each_column() {
    let mut table = Table::new(&ids(&[4, 6]));
    let first = table.allocate(Entity::from_raw(0), vec![vec![1], vec![2, 2]], 5);
    let second = table.allocate(Entity::from_raw(1), vec![vec![3], vec![4, 4]], 6);
    let third = table.allocate(Entity::from_raw(2), vec![vec![5], vec![6, 6]], 7);
    assert_eq!((first, second, third), (0, 1, 2));
    assert_eq!(table.entity_count(), 3);
    assert_eq!(table.get(ComponentId::new(6), 1), Some(&vec![4, 4]));
    assert_eq!(table.get(ComponentId::new(4), 2), Some(&vec![5]));
    assert_eq!(table.get(ComponentId::new(4), 3), None);
    assert_eq!(table.get(ComponentId::new(5), 0), None);
    assert_eq!(table.get_ticks(ComponentId::new(4), 1), Some(ComponentTicks::new(6)));
    assert_eq!(table.get_ticks(ComponentId::new(5), 1), None);
    let result = table.swap_remove(0);
    assert_eq!(result.swapped_entity, Some(Entity::from_raw(2)));
    assert_eq!(table.entities(), &[Entity::from_raw(2), Entity::from_raw(1)]);
    assert_eq!(table.get(ComponentId::new(6), 0), Some(&vec![6, 6]));
    assert_eq!(table.get_ticks(ComponentId::new(6), 0), Some(ComponentTicks::new(7)));
    assert_eq!(table.swap_remove(1).swapped_entity, None);
    assert!(!table.replace(ComponentId::new(4), 1, vec![0], 9));
    assert!(!table.replace(ComponentId::new(5), 0, vec![0], 9));
    assert!(table.replace(ComponentId::new(4), 0, vec![8], 9));
    assert_eq!(table.get(ComponentId::new(4), 0), Some(&vec![8]));
    assert_eq!(
        table.get_ticks(ComponentId::new(4), 0),
        Some(ComponentTicks { added: Tick::new(7), changed: Tick::new(9) })
    );
    table.check_change_ticks(8 + MAX_CHANGE_AGE);
    assert_eq!(
        table.get_ticks(ComponentId::new(4), 0),
        Some(ComponentTicks { added: Tick::new(8), changed: Tick::new(9) })
    );
}

#[test]
fn a_moved_row_keeps_shared_values_and_gets_added_ones() {
    // columns 1, 2, 3 to columns 5, 2, 6, 1
    let mut src = Table::new(&ids(&[1, 2, 3]));
    let mut dst = Table::new(&ids(&[5, 2, 6, 1]));
    src.allocate(Entity::from_raw(0), vec![vec![10], vec![20], vec![30]], 1);
    src.allocate(Entity::from_raw(1), vec![vec![11], vec![21], vec![31]], 2);
    src.allocate(Entity::from_raw(2), vec![vec![12], vec![22], vec![32]], 3);
    dst.allocate(Entity::from_raw(9), vec![vec![95], vec![92], vec![96], vec![91]], 4);
    let result = src.move_to(0, &mut dst, vec![vec![50], vec![60]], 8);
    assert_eq!(result.swapped_entity, Some(Entity::from_raw(2)));
    assert_eq!(result.new_row, 1);
    assert_eq!(src.entities(), &[Entity::from_raw(2), Entity::from_raw(1)]);
    assert_eq!(src.get(ComponentId::new(1), 0), Some(&vec![12]));
    assert_eq!(src.get(ComponentId::new(3), 0), Some(&vec![32]));
    assert_eq!(src.get(ComponentId::new(2), 1), Some(&vec![21]));
    assert_eq!(src.get(ComponentId::new(2), 2), None);
    assert_eq!(dst.entities(), &[Entity::from_raw(9), Entity::from_raw(0)]);
    assert_eq!(dst.get(ComponentId::new(5), 1), Some(&vec![50]));
    assert_eq!(dst.get(ComponentId::new(2), 1), Some(&vec![20]));
    assert_eq!(dst.get(ComponentId::new(6), 1), Some(&vec![60]));
    assert_eq!(dst.get(ComponentId::new(1), 1), Some(&vec![10]));
    assert_eq!(dst.get(ComponentId::new(1), 0), Some(&vec![91]));
    assert_eq!(dst.get_ticks(ComponentId::new(2), 1), Some(ComponentTicks::new(1)));
    assert_eq!(dst.get_ticks(ComponentId::new(5), 1), Some(ComponentTicks::new(8)));
    let last = src.move_to(1, &mut dst, vec![vec![51], vec![61]], 9);
    assert_eq!(last.swapped_entity, None);
    assert_eq!(last.new_row, 2);
    assert_eq!(src.entity_count(), 1);
    assert_eq!(dst.get(ComponentId::new(6), 2), Some(&vec![61]));
}

fn resource_id() -> ArchetypeComponentId {
    ArchetypeComponentId::new(3)
}

#[test]
fn a_resource_slot_is_created_once() {
    let mut components = Components::new();
    let a = components.init_component(StorageType::Table, 2);
    let b = components.init_component(StorageType::Table, 1);
    let mut resources = Resources::new();
    assert!(resources.is_empty());
    assert!(resources.get(a).is_none());
    assert!(resources.get_mut(a).is_none());
    let mut calls = 0;
    {
        let slot = resources.initialize_with(b, &components, || {
            calls += 1;
            resource_id()
        });
        assert!(!slot.is_present());
        assert_eq!(slot.id().index(), 3);
        assert!(slot.get_data().is_none());
        assert!(slot.get_ticks().is_none());
        assert!(slot.get_with_ticks().is_none());
        slot.insert(vec![7], 12);
    }
    {
        let slot = resources.initialize_with(b, &components, || {
            calls += 1;
            ArchetypeComponentId::new(4)
        });
        assert!(slot.is_present());
        assert_eq!(slot.id().index(), 3);
    }
    assert_eq!(calls, 1);
    resources.initialize_with(a, &components, || ArchetypeComponentId::new(5));
    assert_eq!(resources.len(), 2);
    let all: Vec<(usize, usize)> =
        resources.iter().iter().map(|(id, data)| (id.index(), data.id().index())).collect();
    assert_eq!(all, vec![(1, 3), (0, 5)]);
    assert_eq!(resources.get(b).unwrap().get_data(), Some(&vec![7]));
    assert!(Resources::default().is_empty());
}

#[test]
fn a_resource_is_stamped_when_it_is_written() {
    let mut data = ResourceData::new(1, resource_id());
    assert!(data.remove().is_none());
    data.insert(vec![1], 5);
    assert_eq!(data.get_ticks(), Some(ComponentTicks::new(5)));
    data.insert(vec![2], 9);
    assert_eq!(data.get_data(), Some(&vec![2]));
    assert_eq!(data.get_ticks(), Some(ComponentTicks::new(9)));
    let (bytes, ticks) = data.get_with_ticks().unwrap();
    assert_eq!((bytes, ticks), (&vec![2], ComponentTicks::new(9)));
    let (bytes, ticks) = data.remove().unwrap();
    assert_eq!((bytes.clone(), ticks), (vec![2], ComponentTicks::new(9)));
    assert!(!data.is_present());
    let earlier = ComponentTicks { added: Tick::new(3), changed: Tick::new(4) };
    data.insert_with_ticks(bytes, earlier);
    assert_eq!(data.get_ticks(), Some(earlier));
    data.remove_and_drop();
    assert!(data.get_data().is_none());
    assert!(data.get_ticks().is_none());
}

#[test]
fn an_untouched_resource_is_not_changed_after_the_sweep() {
    let mut components = Components::new();
    let id = components.init_component(StorageType::Table, 1);
    let other = components.init_component(StorageType::Table, 1);
    let mut resources = Resources::new();
    resources.initialize_with(id, &components, || ArchetypeComponentId::new(0)).insert(vec![1], 10);
    let unswept = resources.get(id).unwrap().get_ticks().unwrap();

    // the world's tick passes the horizon without this resource being touched
    let now = 10 + MAX_CHANGE_AGE + 500_000_000;
    resources.initialize_with(other, &components, || ArchetypeComponentId::new(1)).insert(
        vec![2],
        now - 5,
    );
    resources.check_change_ticks(now);
    let swept = resources.get(id).unwrap().get_ticks().unwrap();
    assert_eq!(swept, ComponentTicks::new(500_000_010));
    assert_eq!(resources.get(id).unwrap().get_data(), Some(&vec![1]));
    for last in [5, 10, 11, now - MAX_CHANGE_AGE, now - 6, now - 1, now, u32::MAX] {
        assert!(!swept.is_changed(last, now));
        assert!(!swept.is_added(last, now));
    }
    // a resource that was written recently is untouched by the sweep and still counts
    let recent = resources.get(other).unwrap().get_ticks().unwrap();
    assert_eq!(recent, ComponentTicks::new(now - 5));
    assert!(recent.is_changed(now - 6, now));
    assert!(!recent.is_changed(now - 5, now));

    // the tick runs on and wraps: the tick as it was before the sweep would now look
    // recent to a system that last ran a while ago; the swept tick does not
    let later = now.wrapping_add(600_000_000);
    assert!(later < 10 + 100_000_000);
    let last_run = later.wrapping_sub(100_000_000);
    assert!(unswept.is_changed(last_run, later));
    assert!(!swept.is_changed(last_run, later));
    assert!(!swept.is_changed(later.wrapping_sub(MAX_CHANGE_AGE), later));
}
