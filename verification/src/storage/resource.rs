//! Resources: one type-erased value per registered type, with its own
//! change ticks.

use crate::archetype::ArchetypeComponentId;
use crate::component::{clamped_tick, ComponentId, ComponentTicks, Components, Tick};
use crate::storage::sparse_set::SparseSet;
use vstd::prelude::*;

verus! {

/// The type-erased backing storage and metadata for a single resource.
pub struct ResourceData {
    data: Option<Vec<u8>>,
    size: usize,
    added_tick: Tick,
    changed_tick: Tick,
    id: ArchetypeComponentId,
}

impl ResourceData {
    /// The bytes of the value, if the resource is populated.
    pub closed spec fn value(&self) -> Option<Seq<u8>> {
        match self.data {
            Some(bytes) => Some(bytes@),
            None => None,
        }
    }

    /// The size in bytes of a value of the resource's type.
    pub closed spec fn size(&self) -> usize {
        self.size
    }

    /// The ticks at which the value was added and last changed.
    pub closed spec fn ticks(&self) -> ComponentTicks {
        ComponentTicks { added: self.added_tick, changed: self.changed_tick }
    }

    pub closed spec fn spec_id(&self) -> ArchetypeComponentId {
        self.id
    }

    /// An empty slot for values of `size` bytes.
    pub fn new(size: usize, id: ArchetypeComponentId) -> (r: Self)
        ensures
            r.value() is None,
            r.size() == size,
            r.ticks() == (ComponentTicks { added: Tick { tick: 0 }, changed: Tick { tick: 0 } }),
            r.spec_id() == id,
    {
        ResourceData {
            data: None,
            size,
            added_tick: Tick::new(0),
            changed_tick: Tick::new(0),
            id,
        }
    }

    /// Returns true if the resource is populated.
    pub fn is_present(&self) -> (b: bool)
        ensures
            b == self.value() is Some,
    {
        self.data.is_some()
    }

    /// Gets the [`ArchetypeComponentId`] for the resource.
    #[verifier::when_used_as_spec(spec_id)]
    pub fn id(&self) -> (id: ArchetypeComponentId)
        ensures
            id == self.spec_id(),
    {
        self.id
    }

    /// Gets the bytes of the underlying resource, if available.
    pub fn get_data(&self) -> (r: Option<&Vec<u8>>)
        ensures
            match r {
                Some(bytes) => self.value() == Some(bytes@),
                None => self.value() is None,
            },
    {
        self.data.as_ref()
    }

    /// Gets the change ticks of the underlying resource, if available.
    pub fn get_ticks(&self) -> (r: Option<ComponentTicks>)
        ensures
            r == if self.value() is Some {
                Some(self.ticks())
            } else {
                None
            },
    {
        if self.is_present() {
            Some(ComponentTicks { added: self.added_tick, changed: self.changed_tick })
        } else {
            None
        }
    }

    /// Gets the bytes and the change ticks of the underlying resource, if
    /// available.
    pub fn get_with_ticks(&self) -> (r: Option<(&Vec<u8>, ComponentTicks)>)
        ensures
            match r {
                Some((bytes, ticks)) => self.value() == Some(bytes@) && ticks == self.ticks(),
                None => self.value() is None,
            },
    {
        match &self.data {
            Some(bytes) => Some(
                (bytes, ComponentTicks { added: self.added_tick, changed: self.changed_tick }),
            ),
            None => None,
        }
    }

    /// Inserts a value into the resource. If a value is already present it
    /// is dropped and replaced. Both ticks are set to `change_tick`.
    ///
    /// The value must have the size of the resource's type.
    pub fn insert(&mut self, value: Vec<u8>, change_tick: u32)
        requires
            value@.len() == old(self).size(),
        ensures
            final(self).value() == Some(value@),
            final(self).ticks() == (ComponentTicks {
                added: Tick { tick: change_tick },
                changed: Tick { tick: change_tick },
            }),
            final(self).size() == old(self).size(),
            final(self).spec_id() == old(self).spec_id(),
    {
        self.data = Some(value);
        let tick = Tick::new(change_tick);
        self.added_tick = tick;
        self.changed_tick = tick;
    }

    /// Inserts a value into the resource with ticks that it had before, for
    /// a value that was taken out earlier. If a value is already present it
    /// is dropped and replaced.
    ///
    /// The value must have the size of the resource's type.
    pub fn insert_with_ticks(&mut self, value: Vec<u8>, change_ticks: ComponentTicks)
        requires
            value@.len() == old(self).size(),
        ensures
            final(self).value() == Some(value@),
            final(self).ticks() == change_ticks,
            final(self).size() == old(self).size(),
            final(self).spec_id() == old(self).spec_id(),
    {
        self.data = Some(value);
        self.added_tick = change_ticks.added;
        self.changed_tick = change_ticks.changed;
    }

    /// Removes a value from the resource, if present, and hands it out with
    /// its ticks.
    #[must_use]
    pub fn remove(&mut self) -> (r: Option<(Vec<u8>, ComponentTicks)>)
        ensures
            final(self).value() is None,
            final(self).ticks() == old(self).ticks(),
            final(self).size() == old(self).size(),
            final(self).spec_id() == old(self).spec_id(),
            match r {
                Some((bytes, ticks)) => old(self).value() == Some(bytes@) && ticks == old(self).ticks(),
                None => old(self).value() is None,
            },
    {
        let mut taken: Option<Vec<u8>> = None;
        core::mem::swap(&mut self.data, &mut taken);
        match taken {
            Some(bytes) => Some(
                (bytes, ComponentTicks { added: self.added_tick, changed: self.changed_tick }),
            ),
            None => None,
        }
    }

    /// Removes a value from the resource, if present, and drops it.
    pub fn remove_and_drop(&mut self)
        ensures
            final(self).value() is None,
            final(self).ticks() == old(self).ticks(),
            final(self).size() == old(self).size(),
            final(self).spec_id() == old(self).spec_id(),
    {
        self.data = None;
    }

    /// Sweeps both ticks: a tick that has fallen behind `change_tick` by
    /// more than the largest age is moved up to that age.
    pub fn check_change_ticks(&mut self, change_tick: u32)
        ensures
            final(self).value() == old(self).value(),
            final(self).size() == old(self).size(),
            final(self).spec_id() == old(self).spec_id(),
            final(self).ticks().added.tick == clamped_tick(old(self).ticks().added.tick, change_tick),
            final(self).ticks().changed.tick == clamped_tick(
                old(self).ticks().changed.tick,
                change_tick,
            ),
    {
        self.added_tick.check_tick(change_tick);
        self.changed_tick.check_tick(change_tick);
    }
}

/// The backing store for all resources of a world.
pub struct Resources {
    resources: SparseSet<ResourceData>,
}

impl Resources {
    /// The slots by the index of their component id.
    pub closed spec fn view(&self) -> Map<usize, ResourceData> {
        self.resources@
    }

    /// The component indices of the slots, in the order of their creation.
    pub closed spec fn order(&self) -> Seq<usize> {
        self.resources.keys()
    }

    /// The slots, in the order of their creation.
    pub closed spec fn slots(&self) -> Seq<ResourceData> {
        self.resources.values()
    }

    pub closed spec fn wf(&self) -> bool {
        self.resources.wf()
    }

    /// What well-formedness says of the public views: `order()` lists each
    /// initialized resource once, and `slots()` holds their data in the same
    /// order.
    pub proof fn lemma_wf(&self)
        requires
            self.wf(),
        ensures
            self.order().no_duplicates(),
            self.order().len() == self.slots().len(),
            forall|k: usize| self@.contains_key(k) <==> self.order().contains(k),
            forall|i: int|
                0 <= i < self.order().len() ==> self@.contains_key(#[trigger] self.order()[i])
                    && self@[self.order()[i]] == self.slots()[i],
    {
        self.resources.lemma_keys();
    }

    pub fn new() -> (r: Self)
        ensures
            r.wf(),
            r@ == Map::<usize, ResourceData>::empty(),
            r.order() == Seq::<usize>::empty(),
    {
        Resources { resources: SparseSet::new() }
    }

    /// The total number of resources that have been initialized.
    pub fn len(&self) -> (n: usize)
        requires
            self.wf(),
        ensures
            n == self.order().len(),
    {
        self.resources.len()
    }

    /// All resources that have been initialized, with their component ids,
    /// in the order of their creation.
    pub fn iter(&self) -> (all: Vec<(ComponentId, &ResourceData)>)
        requires
            self.wf(),
        ensures
            all@.len() == self.order().len(),
            forall|i: int|
                0 <= i < all@.len() ==> (#[trigger] all@[i]).0.0 == self.order()[i] && *all@[i].1
                    == self.slots()[i],
    {
        let mut all: Vec<(ComponentId, &ResourceData)> = Vec::new();
        let n: usize = self.resources.len();
        let mut i: usize = 0;
        while i < n
            invariant
                i <= n,
                n == self.order().len(),
                self.wf(),
                all@.len() == i,
                forall|j: int|
                    0 <= j < i ==> (#[trigger] all@[j]).0.0 == self.order()[j] && *all@[j].1
                        == self.slots()[j],
            decreases n - i,
        {
            all.push((ComponentId(self.resources.key_at(i)), self.resources.value_at(i)));
            i += 1;
        }
        all
    }

    /// Returns true if no resource has been initialized.
    pub fn is_empty(&self) -> (b: bool)
        requires
            self.wf(),
        ensures
            b == (self.order().len() == 0),
    {
        self.resources.is_empty()
    }

    /// Gets read-only access to a resource, if it exists.
    pub fn get(&self, component_id: ComponentId) -> (r: Option<&ResourceData>)
        requires
            self.wf(),
        ensures
            match r {
                Some(data) => self@.contains_key(component_id.0) && *data == self@[component_id.0],
                None => !self@.contains_key(component_id.0),
            },
    {
        self.resources.get(component_id.0)
    }

    /// Whether every slot but the one of `component_id`, and the order of
    /// all slots, is as in `before`.
    pub open spec fn others_unchanged(&self, before: &Self, component_id: ComponentId) -> bool {
        &&& self.order() == before.order()
        &&& self@.dom() == before@.dom()
        &&& forall|k: usize|
            k != component_id.0 && before@.contains_key(k) ==> #[trigger] self@[k] == before@[k]
    }

    /// Gets mutable access to a resource, if it exists. No other resource
    /// changes.
    pub fn get_mut(&mut self, component_id: ComponentId) -> (r: Option<&mut ResourceData>)
        requires
            old(self).wf(),
        ensures
            final(self).wf(),
            final(self).others_unchanged(old(self), component_id),
            match r {
                Some(data) => old(self)@.contains_key(component_id.0) && *data
                    == old(self)@[component_id.0] && final(self)@[component_id.0] == *final(data),
                None => !old(self)@.contains_key(component_id.0) && final(self)@ == old(self)@,
            },
    {
        self.resources.get_mut(component_id.0)
    }

    /// Fetches the slot of a resource, creating it first if there is none:
    /// a new slot is empty, has the size that `components` registers for
    /// the type, ticks 0, and the id that `f` hands out. `f` is only called
    /// when a slot is created. An existing slot is returned as it is.
    ///
    /// Creating a slot needs `component_id` to be registered in
    /// `components`.
    pub fn initialize_with<G: FnOnce() -> ArchetypeComponentId>(
        &mut self,
        component_id: ComponentId,
        components: &Components,
        f: G,
    ) -> (r: &mut ResourceData)
        requires
            old(self).wf(),
            !old(self)@.contains_key(component_id.0) ==> component_id.0 < components@.len()
                && f.requires(()),
        ensures
            final(self).wf(),
            final(self)@.contains_key(component_id.0),
            final(self)@[component_id.0] == *final(r),
            old(self)@.contains_key(component_id.0) ==> *r == old(self)@[component_id.0]
                && final(self).others_unchanged(old(self), component_id),
            !old(self)@.contains_key(component_id.0) ==> {
                &&& r.value() is None
                &&& r.size() == components@[component_id.0 as int].size
                &&& r.ticks() == (ComponentTicks {
                    added: Tick { tick: 0 },
                    changed: Tick { tick: 0 },
                })
                &&& f.ensures((), r.spec_id())
                &&& final(self).order() == old(self).order().push(component_id.0)
                &&& final(self)@.dom() == old(self)@.dom().insert(component_id.0)
                &&& forall|k: usize|
                    old(self)@.contains_key(k) ==> #[trigger] final(self)@[k] == old(self)@[k]
            },
    {
        if !self.resources.contains(component_id.0) {
            let component_info = components.get_info(component_id).unwrap();
            let id = f();
            self.resources.insert(component_id.0, ResourceData::new(component_info.size, id));
        }
        proof {
            old(self).resources.lemma_keys();
            self.resources.lemma_keys();
        }
        self.resources.get_mut(component_id.0).unwrap()
    }

    /// The store is `before` after a sweep at `now`: the same slots with
    /// the same values, and swept ticks.
    pub open spec fn swept_from(&self, before: &Resources, now: u32) -> bool {
        &&& self.order() == before.order()
        &&& self.slots().len() == before.slots().len()
        &&& forall|i: int|
            0 <= i < self.slots().len() ==> {
                let after = #[trigger] self.slots()[i];
                let before = before.slots()[i];
                &&& after.value() == before.value()
                &&& after.size() == before.size()
                &&& after.spec_id() == before.spec_id()
                &&& after.ticks().added.tick == clamped_tick(before.ticks().added.tick, now)
                &&& after.ticks().changed.tick == clamped_tick(before.ticks().changed.tick, now)
            }
    }

    /// Sweeps the ticks of every resource, see
    /// [`ResourceData::check_change_ticks`].
    pub fn check_change_ticks(&mut self, change_tick: u32)
        requires
            old(self).wf(),
        ensures
            final(self).wf(),
            final(self).swept_from(old(self), change_tick),
    {
        let n: usize = self.resources.len();
        let mut i: usize = 0;
        while i < n
            invariant
                i <= n,
                n == self.order().len(),
                self.wf(),
                self.order() == old(self).order(),
                self.slots().len() == old(self).slots().len(),
                self.resources.slots() == old(self).resources.slots(),
                forall|j: int| i <= j < n ==> self.slots()[j] == old(self).slots()[j],
                forall|j: int|
                    0 <= j < i ==> {
                        let after = #[trigger] self.slots()[j];
                        let before = old(self).slots()[j];
                        &&& after.value() == before.value()
                        &&& after.size() == before.size()
                        &&& after.spec_id() == before.spec_id()
                        &&& after.ticks().added.tick == clamped_tick(
                            before.ticks().added.tick,
                            change_tick,
                        )
                        &&& after.ticks().changed.tick == clamped_tick(
                            before.ticks().changed.tick,
                            change_tick,
                        )
                    },
            decreases n - i,
        {
            let ghost before = *self;
            let info = self.resources.value_at_mut(i);
            info.check_change_ticks(change_tick);
            proof {
                self.resources.lemma_same_shape(&before.resources);
            }
            i += 1;
        }
    }
}

impl Default for Resources {
    fn default() -> (r: Self)
        ensures
            r.wf(),
            r@ == Map::<usize, ResourceData>::empty(),
    {
        Resources::new()
    }
}

} // verus!
