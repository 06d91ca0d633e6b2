//! Component identifiers, the component registry and change-detection ticks.

use vstd::prelude::*;

verus! {

/// Number of ticks between two sweeps that clamp old ticks.
pub const CHECK_TICK_THRESHOLD: u32 = 518_400_000;

/// The largest age a tick may keep after a sweep. Older ticks are clamped to
/// this age so that wrapping subtraction never mistakes them for recent ones.
pub const MAX_CHANGE_AGE: u32 = 3_258_167_296;

/// How a component type is stored: in a table column or in a sparse set.
#[derive(Debug, Copy, Clone, PartialEq, Eq, Hash, Structural)]
pub enum StorageType {
    Table,
    SparseSet,
}

/// Stable identifier of a registered component type.
#[derive(Debug, Copy, Clone, PartialEq, Eq, Hash, PartialOrd, Ord, Structural)]
pub struct ComponentId(pub usize);

impl ComponentId {
    pub fn new(index: usize) -> (id: Self)
        ensures
            id.0 == index,
    {
        ComponentId(index)
    }

    pub fn index(self) -> (i: usize)
        ensures
            i == self.0,
    {
        self.0
    }
}

/// What the registry knows about one component type.
#[derive(Debug, Copy, Clone, PartialEq, Eq, Structural)]
pub struct ComponentInfo {
    pub id: ComponentId,
    pub storage_type: StorageType,
    /// Size in bytes of one value of the type.
    pub size: usize,
}

/// Registry of component types. Ids are handed out in registration order and
/// never change afterwards.
pub struct Components {
    infos: Vec<ComponentInfo>,
}

impl Components {
    /// The registered infos, indexed by component id.
    pub closed spec fn view(&self) -> Seq<ComponentInfo> {
        self.infos@
    }

    /// Every info sits at the index its id names.
    pub open spec fn wf(&self) -> bool {
        forall|i: int| 0 <= i < self@.len() ==> (#[trigger] self@[i]).id.0 == i
    }

    pub fn new() -> (c: Self)
        ensures
            c@.len() == 0,
            c.wf(),
    {
        Components { infos: Vec::new() }
    }

    pub fn len(&self) -> (n: usize)
        ensures
            n == self@.len(),
    {
        self.infos.len()
    }

    /// Registers a new component type and returns its id, the number of types
    /// registered before it.
    pub fn init_component(&mut self, storage_type: StorageType, size: usize) -> (id: ComponentId)
        requires
            old(self).wf(),
        ensures
            final(self).wf(),
            id.0 == old(self)@.len(),
            final(self)@ == old(self)@.push(
                ComponentInfo { id, storage_type, size },
            ),
    {
        let id = ComponentId(self.infos.len());
        self.infos.push(ComponentInfo { id, storage_type, size });
        id
    }

    /// The info registered for `id`, if any.
    pub fn get_info(&self, id: ComponentId) -> (info: Option<ComponentInfo>)
        ensures
            (id.0 < self@.len()) ==> info == Some(self@[id.0 as int]),
            (id.0 >= self@.len()) ==> info is None,
    {
        if id.0 < self.infos.len() {
            Some(self.infos[id.0])
        } else {
            None
        }
    }
}

/// Age of `tick` as seen from `now`, in wrapping arithmetic.
pub open spec fn tick_age(tick: u32, now: u32) -> int {
    if now >= tick {
        now - tick
    } else {
        now - tick + 0x1_0000_0000
    }
}

/// `tick_age`, capped at [`MAX_CHANGE_AGE`].
pub open spec fn capped_age(tick: u32, now: u32) -> int {
    if tick_age(tick, now) > MAX_CHANGE_AGE {
        MAX_CHANGE_AGE as int
    } else {
        tick_age(tick, now)
    }
}

/// The tick a sweep at `now` leaves in place of `tick`.
pub open spec fn clamped_tick(tick: u32, now: u32) -> u32 {
    if tick_age(tick, now) > MAX_CHANGE_AGE {
        if now >= MAX_CHANGE_AGE {
            (now - MAX_CHANGE_AGE) as u32
        } else {
            (now - MAX_CHANGE_AGE + 0x1_0000_0000) as u32
        }
    } else {
        tick
    }
}

/// A point on the world's logical clock.
#[derive(Debug, Copy, Clone, PartialEq, Eq, Structural)]
pub struct Tick {
    pub tick: u32,
}

impl Tick {
    pub fn new(tick: u32) -> (t: Self)
        ensures
            t.tick == tick,
    {
        Tick { tick }
    }

    /// True when a system that last ran at `last_change_tick` has not yet seen
    /// the change recorded by this tick, judged at `change_tick`.
    pub open spec fn newer_than(self, last_change_tick: u32, change_tick: u32) -> bool {
        capped_age(last_change_tick, change_tick) > capped_age(self.tick, change_tick)
    }

    /// Reports whether this tick is more recent than `last_change_tick`, both
    /// ages measured from `change_tick` and capped at [`MAX_CHANGE_AGE`].
    pub fn is_newer_than(&self, last_change_tick: u32, change_tick: u32) -> (b: bool)
        ensures
            b == self.newer_than(last_change_tick, change_tick),
    {
        let since_insert: u32 = change_tick.wrapping_sub(self.tick);
        let since_system: u32 = change_tick.wrapping_sub(last_change_tick);
        let since_insert: u32 = if since_insert > MAX_CHANGE_AGE {
            MAX_CHANGE_AGE
        } else {
            since_insert
        };
        let since_system: u32 = if since_system > MAX_CHANGE_AGE {
            MAX_CHANGE_AGE
        } else {
            since_system
        };
        since_system > since_insert
    }

    /// Sweep step: a tick older than [`MAX_CHANGE_AGE`] is moved forward to
    /// exactly that age; any other tick is left alone.
    pub fn check_tick(&mut self, change_tick: u32)
        ensures
            final(self).tick == clamped_tick(old(self).tick, change_tick),
            tick_age(final(self).tick, change_tick) <= MAX_CHANGE_AGE,
            tick_age(old(self).tick, change_tick) > MAX_CHANGE_AGE ==> forall|last: u32|
                !(#[trigger] final(self).newer_than(last, change_tick)),
    {
        let age: u32 = change_tick.wrapping_sub(self.tick);
        if age > MAX_CHANGE_AGE {
            self.tick = change_tick.wrapping_sub(MAX_CHANGE_AGE);
        }
    }

    pub fn set_changed(&mut self, change_tick: u32)
        ensures
            final(self).tick == change_tick,
    {
        self.tick = change_tick;
    }
}

/// A value that was there when the ticks were swept at `swept_at` is not
/// reported as newer to a system that ran at `last`, after the sweep, as
/// long as the next sweep is not overdue at `now`: the tick does not wrap
/// around between two sweeps.
pub proof fn law_swept_tick_is_not_newer(tick: u32, swept_at: u32, last: u32, now: u32)
    requires
        tick_age(swept_at, now) < 2 * CHECK_TICK_THRESHOLD,
        tick_age(last, now) <= tick_age(swept_at, now),
    ensures
        tick_age(clamped_tick(tick, swept_at), now) == tick_age(clamped_tick(tick, swept_at), swept_at)
            + tick_age(swept_at, now),
        !(Tick { tick: clamped_tick(tick, swept_at) }).newer_than(last, now),
{
}

/// The ticks a sweep at `now` leaves in place of `ticks`.
pub open spec fn swept_ticks(ticks: ComponentTicks, now: u32) -> ComponentTicks {
    ComponentTicks {
        added: Tick { tick: clamped_tick(ticks.added.tick, now) },
        changed: Tick { tick: clamped_tick(ticks.changed.tick, now) },
    }
}

/// The added and changed ticks of one stored value.
#[derive(Debug, Copy, Clone, PartialEq, Eq, Structural)]
pub struct ComponentTicks {
    pub added: Tick,
    pub changed: Tick,
}

impl ComponentTicks {
    /// Ticks of a value written for the first time at `change_tick`.
    pub fn new(change_tick: u32) -> (t: Self)
        ensures
            t.added.tick == change_tick,
            t.changed.tick == change_tick,
    {
        ComponentTicks { added: Tick::new(change_tick), changed: Tick::new(change_tick) }
    }

    pub fn is_added(&self, last_change_tick: u32, change_tick: u32) -> (b: bool)
        ensures
            b == self.added.newer_than(last_change_tick, change_tick),
    {
        self.added.is_newer_than(last_change_tick, change_tick)
    }

    pub fn is_changed(&self, last_change_tick: u32, change_tick: u32) -> (b: bool)
        ensures
            b == self.changed.newer_than(last_change_tick, change_tick),
    {
        self.changed.is_newer_than(last_change_tick, change_tick)
    }

    /// Records an overwrite: only the changed tick moves.
    pub fn set_changed(&mut self, change_tick: u32)
        ensures
            final(self).added == old(self).added,
            final(self).changed.tick == change_tick,
    {
        self.changed.set_changed(change_tick);
    }

    /// Sweeps both ticks, see [`Tick::check_tick`].
    pub fn check_ticks(&mut self, change_tick: u32)
        ensures
            final(self).added.tick == clamped_tick(old(self).added.tick, change_tick),
            final(self).changed.tick == clamped_tick(old(self).changed.tick, change_tick),
    {
        self.added.check_tick(change_tick);
        self.changed.check_tick(change_tick);
    }
}

} // verus!
