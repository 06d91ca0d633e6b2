use ecs_core::component::{
    ComponentId, ComponentTicks, Components, StorageType, Tick, CHECK_TICK_THRESHOLD,
    MAX_CHANGE_AGE,
};

#[test]
fn the_largest_age_leaves_room_for_two_sweeps() {
    assert_eq!(CHECK_TICK_THRESHOLD, 518_400_000);
    assert_eq!(MAX_CHANGE_AGE, u32::MAX - (2 * CHECK_TICK_THRESHOLD - 1));
}

#[test]
fn components_are_numbered_in_registration_order() {
    let mut components = Components::new();
    let a = components.init_component(StorageType::Table, 4);
    let b = components.init_component(StorageType::SparseSet, 16);
    assert_eq!(a, ComponentId::new(0));
    assert_eq!(b.index(), 1);
    assert_eq!(components.len(), 2);
    let info = components.get_info(b).unwrap();
    assert_eq!(info.storage_type, StorageType::SparseSet);
    assert_eq!(info.size, 16);
    assert_eq!(info.id, b);
    assert!(components.get_info(ComponentId::new(2)).is_none());
}

#[test]
fn a_tick_is_newer_than_an_earlier_run() {
    let tick = Tick::new(10);
    assert!(tick.is_newer_than(5, 20));
    assert!(!tick.is_newer_than(10, 20));
    assert!(!tick.is_newer_than(15, 20));
}

#[test]
fn ages_are_measured_across_the_wrap() {
    // written at u32::MAX - 1, seen from tick 5 by a system that ran at u32::MAX - 3
    let tick = Tick::new(u32::MAX - 1);
    assert!(tick.is_newer_than(u32::MAX - 3, 5));
    assert!(!tick.is_newer_than(2, 5));
}

#[test]
fn check_tick_leaves_young_ticks_alone() {
    let mut tick = Tick::new(100);
    tick.check_tick(100 + MAX_CHANGE_AGE);
    assert_eq!(tick, Tick::new(100));
}

#[test]
fn check_tick_clamps_old_ticks_to_the_largest_age() {
    let mut tick = Tick::new(100);
    tick.check_tick(101 + MAX_CHANGE_AGE);
    assert_eq!(tick, Tick::new(101));
    let mut wrapped = Tick::new(u32::MAX - 10);
    wrapped.check_tick(MAX_CHANGE_AGE.wrapping_add(u32::MAX - 10).wrapping_add(7));
    assert_eq!(wrapped.tick, (u32::MAX - 10).wrapping_add(7));
}

#[test]
fn a_clamped_tick_is_never_reported_as_new() {
    let now = 4_000_000_000u32;
    let mut ticks = ComponentTicks::new(1);
    ticks.check_ticks(now);
    for last in [0u32, 1, 2, now - MAX_CHANGE_AGE, now - 1, now, now.wrapping_add(1), u32::MAX] {
        assert!(!ticks.is_changed(last, now));
        assert!(!ticks.is_added(last, now));
    }
}

#[test]
fn an_overwrite_moves_the_changed_tick_only() {
    let mut ticks = ComponentTicks::new(3);
    ticks.set_changed(9);
    assert_eq!(ticks.added, Tick::new(3));
    assert_eq!(ticks.changed, Tick::new(9));
    assert!(ticks.is_changed(5, 10));
    assert!(!ticks.is_added(5, 10));
    let mut tick = Tick::new(1);
    tick.set_changed(2);
    assert_eq!(tick, Tick::new(2));
}

#[test]
fn the_frame_count_wraps_to_zero() {
    let mut count = ecs_core::frame_count::FrameCount::default();
    assert_eq!(count.0, 0);
    count.advance();
    count.advance();
    assert_eq!(count, ecs_core::frame_count::FrameCount(2));
    let mut last = ecs_core::frame_count::FrameCount(u32::MAX);
    last.advance();
    assert_eq!(last.0, 0);
}
