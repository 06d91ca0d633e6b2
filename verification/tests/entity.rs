use ecs_core::archetype::ArchetypeId;
use ecs_core::entity::{Entities, Entity, EntityLocation};

#[test]
fn entities_are_numbered_from_zero() {
    let mut entities = Entities::new();
    let a = entities.allocate();
    let b = entities.allocate();
    assert_eq!(a, Entity::from_raw(0));
    assert_eq!((b.index(), b.generation()), (1, 0));
    assert_eq!(entities.len(), 2);
    assert!(entities.contains(a));
    assert!(entities.get(a).is_none());
}

#[test]
fn a_location_is_found_again() {
    let mut entities = Entities::new();
    let a = entities.allocate();
    entities.set(a.index(), EntityLocation { archetype_id: ArchetypeId::new(2), index: 5 });
    let location = entities.get(a).unwrap();
    assert_eq!(location.archetype_id.index(), 2);
    assert_eq!(location.index, 5);
}

#[test]
fn a_freed_slot_is_reused_with_a_new_generation() {
    let mut entities = Entities::new();
    let a = entities.allocate();
    let _b = entities.allocate();
    entities.set(a.index(), EntityLocation { archetype_id: ArchetypeId::new(0), index: 0 });
    let location = entities.free(a).unwrap();
    assert_eq!(location.index, 0);
    assert!(!entities.contains(a));
    assert!(entities.get(a).is_none());
    assert!(entities.free(a).is_none());
    let c = entities.allocate();
    assert_eq!((c.index(), c.generation()), (0, 1));
    assert!(entities.contains(c));
    assert!(!entities.contains(a));
    assert!(entities.get(c).is_none());
    assert_eq!(entities.len(), 2);
}

#[test]
fn a_handle_that_was_never_issued_is_not_live() {
    let mut entities = Entities::new();
    assert!(!entities.contains(Entity::from_raw(0)));
    assert!(entities.get(Entity::from_raw(3)).is_none());
    assert!(entities.free(Entity::from_raw(3)).is_none());
    let a = entities.allocate();
    assert!(!entities.contains(Entity { index: a.index(), generation: 1 }));
}
