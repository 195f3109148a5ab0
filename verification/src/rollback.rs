//! What the world asks of every storage, whatever its component type.

use vstd::prelude::*;
use crate::component::Component;
use crate::history::pop_count;
use crate::storage::{Storage, StorageError};
use crate::tick::Tick;

verus! {

/// A store whose current tick can be set.
pub trait SetTick {
    /// The store's invariants hold.
    spec fn sound(&self) -> bool;

    /// The store's current tick.
    spec fn tick(&self) -> Tick;

    /// This store is what `before` is with `tick` as its current tick:
    /// it holds what `before` holds, and only the tick may differ.
    spec fn retimed_from(&self, before: &Self, tick: Tick) -> bool;

    /// Set the current tick. Nothing else changes, and a sound store
    /// stays sound.
    fn set_tick(&mut self, tick: Tick)
        ensures
            final(self).tick() == tick,
            final(self).retimed_from(old(self), tick),
            old(self).sound() ==> final(self).sound(),
    ;
}

/// A store that can be brought back to an earlier tick.
pub trait Rollback: SetTick {
    /// Whether the store refuses a rollback to `target_tick`.
    spec fn refuses(&self, target_tick: Tick) -> bool;

    /// This store is what a rollback to `target_tick` makes of `before`.
    spec fn rolled_back_from(&self, before: &Self, target_tick: Tick) -> bool;

    /// Bring the store back to what it was at the end of `target_tick`.
    /// After a rollback that is not refused, the store is rolled back and
    /// its current tick is `target_tick`; a refused rollback leaves the
    /// store with what it held, at the tick that it had.
    fn rollback(&mut self, target_tick: Tick) -> (r: Result<(), StorageError>)
        requires
            old(self).sound(),
        ensures
            final(self).sound(),
            r.is_err() <==> old(self).refuses(target_tick),
            r.is_ok() ==> final(self).tick() == target_tick && final(self).rolled_back_from(
                old(self),
                target_tick,
            ),
            r.is_err() ==> final(self).tick() == old(self).tick() && final(self).retimed_from(
                old(self),
                old(self).tick(),
            ),
    ;
}

/// A store that the world can keep in its registry.
pub trait StorageLike: Rollback + SetTick {

}

impl<T: Component> SetTick for Storage<T> {
    open spec fn sound(&self) -> bool {
        self.wf()
    }

    open spec fn tick(&self) -> Tick {
        self.current_tick
    }

    /// The same slots, changed marks and deltas in the same hierarchy.
    open spec fn retimed_from(&self, before: &Self, tick: Tick) -> bool {
        &&& self.state() == before.state().set_tick(tick)
        &&& self.root == before.root
    }

    fn set_tick(&mut self, tick: Tick) {
        Storage::set_tick(self, tick)
    }
}

impl<T: Component> Rollback for Storage<T> {
    open spec fn refuses(&self, target_tick: Tick) -> bool {
        self.state().rollback_refused(target_tick)
    }

    /// The state is that of the model's rollback; where no snapshot is
    /// taken off, the hierarchy and the chain are those of `before`.
    open spec fn rolled_back_from(&self, before: &Self, target_tick: Tick) -> bool {
        &&& self.state() == before.state().rollback(target_tick)
        &&& pop_count(before.state().deltas, target_tick) == 0 ==> self.root == before.root
            && self.snapshot == before.snapshot
    }

    fn rollback(&mut self, target_tick: Tick) -> (r: Result<(), StorageError>) {
        Storage::rollback(self, target_tick)
    }
}

impl<T: Component> StorageLike for Storage<T> {

}

} // verus!
