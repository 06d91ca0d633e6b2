//! Entities and where they live.

use crate::archetype::ArchetypeId;
use vstd::prelude::*;

verus! {

/// Handle of an entity: a slot index and the generation of that slot. A slot
/// that is reused gets a new generation, which invalidates older handles.
#[derive(Debug, Copy, Clone, PartialEq, Eq, Hash, Structural)]
pub struct Entity {
    pub generation: u32,
    pub index: u32,
}

impl Entity {
    /// The handle of slot `index` in its first generation.
    pub fn from_raw(index: u32) -> (e: Self)
        ensures
            e.index == index,
            e.generation == 0,
    {
        Entity { index, generation: 0 }
    }

    pub fn index(self) -> (i: u32)
        ensures
            i == self.index,
    {
        self.index
    }

    pub fn generation(self) -> (g: u32)
        ensures
            g == self.generation,
    {
        self.generation
    }
}

/// Where an entity is stored: its archetype and its position in that
/// archetype's entity list.
#[derive(Debug, Copy, Clone, PartialEq, Eq)]
pub struct EntityLocation {
    pub archetype_id: ArchetypeId,
    pub index: usize,
}

/// What the allocator records for one slot.
#[derive(Debug, Copy, Clone)]
pub struct EntityMeta {
    /// The generation of the handle that is or will next be valid here.
    pub generation: u32,
    /// Whether a handle of this generation is currently live.
    pub live: bool,
    /// Where the live entity is stored, once it has been placed.
    pub location: Option<EntityLocation>,
}

/// The entity allocator and the record of every entity's location.
pub struct Entities {
    meta: Vec<EntityMeta>,
    free: Vec<u32>,
}

impl Entities {
    /// The slots, by index.
    pub closed spec fn view(&self) -> Seq<EntityMeta> {
        self.meta@
    }

    /// The indices of the slots that can be handed out again, last freed last.
    pub closed spec fn free_slots(&self) -> Seq<u32> {
        self.free@
    }

    /// Whether `entity` is a live handle.
    pub open spec fn is_live(&self, entity: Entity) -> bool {
        &&& entity.index < self@.len()
        &&& self@[entity.index as int].live
        &&& self@[entity.index as int].generation == entity.generation
    }

    /// The location recorded for `entity`, if it is live and has been placed.
    pub open spec fn location_of(&self, entity: Entity) -> Option<EntityLocation> {
        if self.is_live(entity) {
            self@[entity.index as int].location
        } else {
            None
        }
    }

    /// Slot indices fit in 32 bits, and the free list names each slot that is
    /// not live and not retired at most once.
    pub open spec fn wf(&self) -> bool {
        &&& self@.len() <= u32::MAX
        &&& forall|i: int| 0 <= i < self@.len() && (#[trigger] self@[i]).location is Some ==> self@[i].live
        &&& self.free_slots().no_duplicates()
        &&& forall|i: int|
            0 <= i < self.free_slots().len() ==> (#[trigger] self.free_slots()[i]) < self@.len()
                && !self@[self.free_slots()[i] as int].live
    }

    /// A slot that records a location is live.
    pub proof fn lemma_placed_is_live(&self, slot: int)
        requires
            self.wf(),
            0 <= slot < self@.len(),
            self@[slot].location is Some,
        ensures
            self@[slot].live,
    {
    }

    pub fn new() -> (e: Self)
        ensures
            e.wf(),
            e@.len() == 0,
            e.free_slots().len() == 0,
    {
        Entities { meta: Vec::new(), free: Vec::new() }
    }

    /// The number of slots that have ever been handed out.
    pub fn len(&self) -> (n: usize)
        ensures
            n == self@.len(),
    {
        self.meta.len()
    }

    /// Hands out a live entity without a location. The most recently freed
    /// slot is reused with its new generation; if there is none, a new slot
    /// is opened.
    pub fn allocate(&mut self) -> (entity: Entity)
        requires
            old(self).wf(),
            old(self).free_slots().len() == 0 ==> old(self)@.len() < u32::MAX,
        ensures
            final(self).wf(),
            final(self).is_live(entity),
            !old(self).is_live(entity),
            final(self).location_of(entity) is None,
            old(self).free_slots().len() > 0 ==> entity.index == old(self).free_slots().last()
                && final(self).free_slots() == old(self).free_slots().drop_last() && final(self)@
                == old(self)@.update(
                entity.index as int,
                EntityMeta { generation: entity.generation, live: true, location: None },
            ) && entity.generation == old(self)@[entity.index as int].generation,
            old(self).free_slots().len() == 0 ==> entity.index == old(self)@.len()
                && entity.generation == 0 && final(self).free_slots() == old(self).free_slots()
                && final(self)@ == old(self)@.push(
                EntityMeta { generation: 0, live: true, location: None },
            ),
    {
        match self.free.pop() {
            Some(index) => {
                proof {
                    let last = old(self).free_slots().len() - 1;
                    assert(old(self).free_slots()[last] == index);
                    assert forall|i: int| 0 <= i < self.free_slots().len() implies (
                    #[trigger] self.free_slots()[i]) != index by {
                        assert(old(self).free_slots()[i] == self.free_slots()[i]);
                    }
                }
                let generation: u32 = self.meta[index as usize].generation;
                self.meta[index as usize] = EntityMeta { generation, live: true, location: None };
                Entity { generation, index }
            },
            None => {
                let index: u32 = self.meta.len() as u32;
                self.meta.push(EntityMeta { generation: 0, live: true, location: None });
                Entity { generation: 0, index }
            },
        }
    }

    /// Ends the life of `entity` and returns its last location. A handle
    /// that is not live is refused and nothing changes. The slot moves to
    /// the next generation and becomes reusable, unless its generations are
    /// used up, in which case it is retired.
    pub fn free(&mut self, entity: Entity) -> (location: Option<EntityLocation>)
        requires
            old(self).wf(),
        ensures
            final(self).wf(),
            location == old(self).location_of(entity),
            !final(self).is_live(entity),
            !old(self).is_live(entity) ==> final(self)@ == old(self)@ && final(self).free_slots()
                == old(self).free_slots(),
            old(self).is_live(entity) ==> final(self)@ == old(self)@.update(
                entity.index as int,
                EntityMeta {
                    generation: if entity.generation < u32::MAX {
                        (entity.generation + 1) as u32
                    } else {
                        entity.generation
                    },
                    live: false,
                    location: None,
                },
            ),
            old(self).is_live(entity) ==> final(self).free_slots() == if entity.generation
                < u32::MAX {
                old(self).free_slots().push(entity.index)
            } else {
                old(self).free_slots()
            },
    {
        let index: usize = entity.index as usize;
        if index >= self.meta.len() {
            return None;
        }
        let meta = self.meta[index];
        if !meta.live || meta.generation != entity.generation {
            return None;
        }
        proof {
            assert forall|i: int| 0 <= i < self.free_slots().len() implies (
            #[trigger] self.free_slots()[i]) != entity.index by {}
        }
        if meta.generation < u32::MAX {
            self.meta[index] = EntityMeta {
                generation: meta.generation + 1,
                live: false,
                location: None,
            };
            self.free.push(entity.index);
            proof {
                let before = old(self).free_slots();
                assert forall|i: int, j: int|
                    0 <= i < self.free_slots().len() && 0 <= j < self.free_slots().len() && i
                        != j implies self.free_slots()[i] != self.free_slots()[j] by {
                    if i < before.len() {
                        assert(before[i] == self.free_slots()[i]);
                    }
                    if j < before.len() {
                        assert(before[j] == self.free_slots()[j]);
                    }
                }
            }
        } else {
            self.meta[index] = EntityMeta {
                generation: meta.generation,
                live: false,
                location: None,
            };
        }
        meta.location
    }

    /// Whether `entity` is a live handle.
    pub fn contains(&self, entity: Entity) -> (b: bool)
        ensures
            b == self.is_live(entity),
    {
        let index: usize = entity.index as usize;
        index < self.meta.len() && self.meta[index].live && self.meta[index].generation
            == entity.generation
    }

    /// The location of `entity`, if it is live and has been placed.
    pub fn get(&self, entity: Entity) -> (location: Option<EntityLocation>)
        ensures
            location == self.location_of(entity),
    {
        let index: usize = entity.index as usize;
        if index < self.meta.len() && self.meta[index].live && self.meta[index].generation
            == entity.generation {
            self.meta[index].location
        } else {
            None
        }
    }

    /// Records where the live entity in slot `index` is stored.
    pub fn set(&mut self, index: u32, location: EntityLocation)
        requires
            old(self).wf(),
            index < old(self)@.len(),
            old(self)@[index as int].live,
        ensures
            final(self).wf(),
            final(self).free_slots() == old(self).free_slots(),
            final(self)@ == old(self)@.update(
                index as int,
                EntityMeta {
                    generation: old(self)@[index as int].generation,
                    live: true,
                    location: Some(location),
                },
            ),
    {
        let generation: u32 = self.meta[index as usize].generation;
        self.meta[index as usize] = EntityMeta { generation, live: true, location: Some(location) };
    }
}

} // verus!
