//! The world: the registry of the storages by the type index of their
//! component, and the current tick. Beside it stand the rules on entity
//! handles: which handles are live, and what setting a component or
//! destroying an entity does.

use vstd::prelude::*;
use crate::bits::{bit, has_bit, lemma_bit_single, with_bit};
use crate::component::{Component, Destroyed, lemma_temporary_components};
use crate::entity::Entity;
use crate::hierarchy::CAPACITY;
use crate::rollback::StorageLike;
use crate::storage::{Storage, StorageError};
use crate::tick::Tick;

verus! {

/// Why the world refused an operation on an entity.
#[derive(Clone, Copy, PartialEq, Eq, Debug, Structural)]
pub enum WorldError {
    /// No entity lives in the slot that the handle names.
    MissingEntity,
    /// The handle's generation is not that of the entity that lives in the slot.
    StaleGeneration,
    /// The storage refused the operation.
    Storage(StorageError),
}

/// Whether `entity` is the handle of the entity that lives in its slot.
pub open spec fn is_live(entities: Storage<Entity>, entity: Entity) -> bool {
    match entities.slot(entity.spec_index() as u32) {
        Some(current) => current.spec_generation() == entity.spec_generation(),
        None => false,
    }
}

/// Check that `entity` is the handle of the entity that lives in its
/// slot: an empty slot is refused with `MissingEntity`, another generation
/// with `StaleGeneration`.
pub fn check_entity(entities: &Storage<Entity>, entity: Entity) -> (r: Result<(), WorldError>)
    requires
        entities.wf(),
    ensures
        r.is_ok() <==> is_live(*entities, entity),
        match r {
            Ok(_) => true,
            Err(e) => e == (if entities.slot(entity.spec_index() as u32).is_none() {
                WorldError::MissingEntity
            } else {
                WorldError::StaleGeneration
            }),
        },
{
    match entities.get(entity.index()) {
        Some(current) => {
            if current.generation() != entity.generation() {
                Err(WorldError::StaleGeneration)
            } else {
                Ok(())
            }
        },
        None => Err(WorldError::MissingEntity),
    }
}

/// Set the component of a live entity: the handle is checked, and the
/// value is stored in the entity's slot of `storage`.
pub fn set_component<T: Component>(
    entities: &Storage<Entity>,
    storage: &mut Storage<T>,
    entity: Entity,
    component: &T,
) -> (r: Result<(), WorldError>)
    requires
        entities.wf(),
        old(storage).wf(),
    ensures
        final(storage).wf(),
        r.is_ok() <==> is_live(*entities, entity),
        r.is_ok() ==> final(storage)@ == old(storage)@.set(
            entity.spec_index() as u32,
            *component,
            !T::IS_TEMPORARY,
        ),
        r.is_err() ==> *final(storage) == *old(storage),
{
    match check_entity(entities, entity) {
        Err(e) => Err(e),
        Ok(_) => {
            proof {
                assert(entity.spec_index() < CAPACITY) by {
                    // A live entity lives in a slot of the storage.
                    assert(entities.slot(entity.spec_index() as u32).is_some());
                }
            }
            match storage.set(entity.index(), component) {
                Ok(_) => Ok(()),
                Err(e) => Err(WorldError::Storage(e)),
            }
        },
    }
}

/// Mark a live entity for removal at the end of the tick: the handle is
/// checked, and the entity gets the `Destroyed` tag, which is not recorded
/// for rollback.
pub fn destroy_entity(
    entities: &Storage<Entity>,
    destroyed: &mut Storage<Destroyed>,
    entity: Entity,
) -> (r: Result<(), WorldError>)
    requires
        entities.wf(),
        old(destroyed).wf(),
    ensures
        final(destroyed).wf(),
        r.is_ok() <==> is_live(*entities, entity),
        r.is_ok() ==> final(destroyed)@ == old(destroyed)@.set(
            entity.spec_index() as u32,
            Destroyed {  },
            false,
        ),
        r.is_err() ==> *final(destroyed) == *old(destroyed),
{
    proof {
        lemma_temporary_components();
    }
    set_component(entities, destroyed, entity, &Destroyed {  })
}

/// The number of component types that a world can hold.
pub const TYPE_SLOTS: usize = 128;

/// The storages of a simulation, kept by the type index of their
/// component, and the tick that they share.
pub struct World<S: StorageLike> {
    /// The storage of type index `i` in slot `i`, once it is registered.
    pub storages: Vec<Option<S>>,
    /// Bit `i` is set iff a storage is registered for type index `i`.
    pub mask: u128,
    /// The tick of the simulation.
    pub current_tick: Tick,
}

/// Every storage among `slots` is sound.
pub open spec fn all_sound<S: StorageLike>(slots: Seq<Option<S>>) -> bool {
    forall|id: int|
        0 <= id < slots.len() && (#[trigger] slots[id]).is_some() ==> slots[id].unwrap().sound()
}

/// Every storage among the first `bound` of `slots` is at `tick`.
pub open spec fn all_at<S: StorageLike>(slots: Seq<Option<S>>, bound: int, tick: Tick) -> bool {
    forall|id: int|
        0 <= id < bound && id < slots.len() && (#[trigger] slots[id]).is_some()
            ==> slots[id].unwrap().tick() == tick
}

/// The same type indices are registered in `now` as in `before`.
pub open spec fn same_registered<S: StorageLike>(
    now: Seq<Option<S>>,
    before: Seq<Option<S>>,
) -> bool {
    &&& now.len() == before.len()
    &&& forall|id: int| 0 <= id < now.len() ==> (#[trigger] now[id]).is_some() == before[id].is_some()
}

/// Every storage among the first `bound` of `now` is the storage of
/// `before` in its slot with its tick set to `tick`: it holds what that one held.
pub open spec fn all_retimed<S: StorageLike>(
    now: Seq<Option<S>>,
    before: Seq<Option<S>>,
    bound: int,
    tick: Tick,
) -> bool {
    forall|id: int|
        0 <= id < bound && id < now.len() && id < before.len() && (#[trigger] now[id]).is_some()
            && before[id].is_some() ==> now[id].unwrap().retimed_from(&before[id].unwrap(), tick)
}

/// Every storage among the first `bound` of `now` is what a rollback to
/// `target_tick` makes of the storage of `before` in its slot.
pub open spec fn all_rolled_back<S: StorageLike>(
    now: Seq<Option<S>>,
    before: Seq<Option<S>>,
    bound: int,
    target_tick: Tick,
) -> bool {
    forall|id: int|
        0 <= id < bound && id < now.len() && id < before.len() && (#[trigger] now[id]).is_some()
            && before[id].is_some() ==> now[id].unwrap().rolled_back_from(
            &before[id].unwrap(),
            target_tick,
        )
}

/// Whether the storage in slot `id` of `slots` refuses a rollback to `target_tick`.
pub open spec fn refuses_at<S: StorageLike>(
    slots: Seq<Option<S>>,
    id: int,
    target_tick: Tick,
) -> bool {
    0 <= id < slots.len() && slots[id].is_some() && slots[id].unwrap().refuses(target_tick)
}

/// Whether one of the first `bound` storages of `slots` refuses a
/// rollback to `target_tick`.
pub open spec fn refused_below<S: StorageLike>(
    slots: Seq<Option<S>>,
    bound: int,
    target_tick: Tick,
) -> bool {
    exists|id: int| id < bound && #[trigger] refuses_at(slots, id, target_tick)
}

impl<S: StorageLike> World<S> {
    /// Whether a storage is registered for type index `id`.
    pub open spec fn registered(&self, id: int) -> bool {
        0 <= id < self.storages@.len() && self.storages@[id].is_some()
    }

    /// The world's invariants: one slot for every type index, the mask
    /// names the slots that are filled, and every registered storage is sound.
    pub open spec fn wf(&self) -> bool {
        &&& self.storages@.len() == TYPE_SLOTS
        &&& forall|id: u32|
            #![trigger bit(self.mask, id)]
            id < 128 ==> (bit(self.mask, id) <==> self.storages@[id as int].is_some())
        &&& all_sound(self.storages@)
    }

    /// A world without storages, at tick 0.
    pub fn new() -> (world: Self)
        ensures
            world.wf(),
            world.mask == 0,
            world.current_tick == Tick(0),
            forall|id: int| !world.registered(id),
    {
        let mut storages: Vec<Option<S>> = Vec::with_capacity(TYPE_SLOTS);
        let mut i: usize = 0;
        while i < TYPE_SLOTS
            invariant
                i <= TYPE_SLOTS,
                storages@.len() == i,
                forall|j: int| 0 <= j < i ==> storages@[j].is_none(),
            decreases TYPE_SLOTS - i,
        {
            storages.push(None);
            i += 1;
        }
        proof {
            lemma_bit_single(0);
        }
        World { storages, mask: 0, current_tick: Tick::new(0) }
    }

    /// The current tick of the world.
    pub fn current_tick(&self) -> (tick: Tick)
        ensures
            tick == self.current_tick,
    {
        self.current_tick
    }

    /// Whether a storage is registered for type index `id`.
    pub fn is_registered(&self, id: usize) -> (r: bool)
        requires
            self.wf(),
        ensures
            r == self.registered(id as int),
    {
        id < TYPE_SLOTS && has_bit(self.mask, id as u32)
    }

    /// The storage that is registered for type index `id`, if there is one.
    pub fn storage(&self, id: usize) -> (r: Option<&S>)
        requires
            self.wf(),
        ensures
            r == (if self.registered(id as int) {
                Some(&self.storages@[id as int].unwrap())
            } else {
                None
            }),
    {
        if id < TYPE_SLOTS {
            self.storages[id].as_ref()
        } else {
            None
        }
    }

    /// Register `storage` for type index `id`; it takes the place of a
    /// storage that was registered for `id` before.
    pub fn register(&mut self, id: usize, storage: S)
        requires
            old(self).wf(),
            id < TYPE_SLOTS,
            storage.sound(),
        ensures
            final(self).wf(),
            final(self).storages@ == old(self).storages@.update(id as int, Some(storage)),
            final(self).current_tick == old(self).current_tick,
    {
        self.storages[id] = Some(storage);
        self.mask = with_bit(self.mask, id as u32);
        proof {
            assert(self.storages@ =~= old(self).storages@.update(id as int, Some(storage)));
            assert forall|other: u32| other < 128 implies (bit(self.mask, other)
                <==> self.storages@[other as int].is_some()) by {
                assert(bit(old(self).mask, other) <==> old(self).storages@[other as int].is_some());
            }
        }
    }

    /// Set the tick of the world and of every registered storage. The
    /// storages hold what they held.
    pub fn set_tick(&mut self, tick: Tick)
        requires
            old(self).wf(),
        ensures
            final(self).wf(),
            final(self).mask == old(self).mask,
            final(self).current_tick == tick,
            same_registered(final(self).storages@, old(self).storages@),
            all_at(final(self).storages@, TYPE_SLOTS as int, tick),
            all_retimed(final(self).storages@, old(self).storages@, TYPE_SLOTS as int, tick),
    {
        let mut i: usize = 0;
        while i < TYPE_SLOTS
            invariant
                i <= TYPE_SLOTS,
                self.wf(),
                old(self).wf(),
                self.mask == old(self).mask,
                same_registered(self.storages@, old(self).storages@),
                all_at(self.storages@, i as int, tick),
                all_retimed(self.storages@, old(self).storages@, i as int, tick),
                forall|id: int|
                    i <= id < TYPE_SLOTS ==> self.storages@[id] == old(self).storages@[id],
            decreases TYPE_SLOTS - i,
        {
            let ghost before = self.storages@;
            match &mut self.storages[i] {
                Some(storage) => {
                    storage.set_tick(tick);
                },
                None => {},
            }
            proof {
                assert(forall|id: int| 0 <= id < 128 && id != i ==> self.storages@[id] == before[id]);
                assert(before[i as int].is_some() == self.storages@[i as int].is_some());
                assert forall|id: u32| id < 128 implies (bit(self.mask, id)
                    <==> self.storages@[id as int].is_some()) by {
                    assert(bit(self.mask, id) <==> before[id as int].is_some());
                }
                assert(before[i as int] == old(self).storages@[i as int]);
            }
            i += 1;
        }
        self.current_tick = tick;
    }

    /// Go on to the next tick: the tick of the world advances by one,
    /// wrapping around, and every registered storage gets the new tick. The
    /// storages hold what they held.
    pub fn advance_tick(&mut self)
        requires
            old(self).wf(),
        ensures
            final(self).wf(),
            final(self).mask == old(self).mask,
            final(self).current_tick == spec_next_tick(old(self).current_tick),
            same_registered(final(self).storages@, old(self).storages@),
            all_at(final(self).storages@, TYPE_SLOTS as int, final(self).current_tick),
            all_retimed(
                final(self).storages@,
                old(self).storages@,
                TYPE_SLOTS as int,
                final(self).current_tick,
            ),
    {
        let next = next_tick(self.current_tick);
        self.set_tick(next);
    }

    /// Bring every registered storage back to `target_tick`, in the order
    /// of the type indices, and set the world's tick to it: every storage is
    /// then what its own rollback makes of it.
    ///
    /// The first storage that refuses ends the rollback: the storages
    /// before it are rolled back, the refusing one holds what it held, and
    /// the storages after it and the world's tick are as they were.
    pub fn rollback(&mut self, target_tick: Tick) -> (r: Result<(), StorageError>)
        requires
            old(self).wf(),
        ensures
            final(self).wf(),
            final(self).mask == old(self).mask,
            same_registered(final(self).storages@, old(self).storages@),
            r.is_err() <==> refused_below(old(self).storages@, TYPE_SLOTS as int, target_tick),
            r.is_ok() ==> {
                &&& final(self).current_tick == target_tick
                &&& all_at(final(self).storages@, TYPE_SLOTS as int, target_tick)
                &&& all_rolled_back(
                    final(self).storages@,
                    old(self).storages@,
                    TYPE_SLOTS as int,
                    target_tick,
                )
            },
            r.is_err() ==> final(self).current_tick == old(self).current_tick && exists|first: int|
                {
                    &&& #[trigger] refuses_at(old(self).storages@, first, target_tick)
                    &&& !refused_below(old(self).storages@, first, target_tick)
                    &&& all_at(final(self).storages@, first, target_tick)
                    &&& all_rolled_back(
                        final(self).storages@,
                        old(self).storages@,
                        first,
                        target_tick,
                    )
                    &&& final(self).storages@[first].unwrap().retimed_from(
                        &old(self).storages@[first].unwrap(),
                        old(self).storages@[first].unwrap().tick(),
                    )
                    &&& forall|id: int|
                        first < id < TYPE_SLOTS ==> final(self).storages@[id] == old(
                            self,
                        ).storages@[id]
                },
    {
        let mut i: usize = 0;
        while i < TYPE_SLOTS
            invariant
                i <= TYPE_SLOTS,
                self.wf(),
                old(self).wf(),
                self.mask == old(self).mask,
                self.current_tick == old(self).current_tick,
                same_registered(self.storages@, old(self).storages@),
                !refused_below(old(self).storages@, i as int, target_tick),
                all_at(self.storages@, i as int, target_tick),
                all_rolled_back(self.storages@, old(self).storages@, i as int, target_tick),
                forall|id: int|
                    i <= id < TYPE_SLOTS ==> self.storages@[id] == old(self).storages@[id],
            decreases TYPE_SLOTS - i,
        {
            let ghost before = self.storages@;
            assert(before[i as int].is_some() ==> before[i as int].unwrap().sound());
            let outcome = match &mut self.storages[i] {
                Some(storage) => storage.rollback(target_tick),
                None => Ok(()),
            };
            proof {
                assert(forall|id: int| 0 <= id < 128 && id != i ==> self.storages@[id] == before[id]);
                assert(before[i as int].is_some() == self.storages@[i as int].is_some());
                assert forall|id: u32| id < 128 implies (bit(self.mask, id)
                    <==> self.storages@[id as int].is_some()) by {
                    assert(bit(self.mask, id) <==> before[id as int].is_some());
                }
                assert(before[i as int] == old(self).storages@[i as int]);
                assert(outcome.is_err() <==> refuses_at(old(self).storages@, i as int, target_tick));
            }
            match outcome {
                Ok(_) => {},
                Err(e) => {
                    return Err(e);
                },
            }
            proof {
                assert forall|id: int| id < i + 1 implies !refuses_at(
                    old(self).storages@,
                    id,
                    target_tick,
                ) by {
                    if id < i {
                        assert(!refused_below(old(self).storages@, i as int, target_tick));
                    }
                }
            }
            i += 1;
        }
        // Update the world's tick to match the target tick after rollback.
        self.current_tick = target_tick;
        Ok(())
    }
}

/// The tick after `tick`; the ticks wrap around.
pub open spec fn spec_next_tick(tick: Tick) -> Tick {
    Tick(
        if tick.0 == u32::MAX {
            0
        } else {
            (tick.0 + 1) as u32
        },
    )
}

/// The tick after `tick`; the ticks wrap around.
pub fn next_tick(tick: Tick) -> (next: Tick)
    ensures
        next == spec_next_tick(tick),
{
    Tick::new(tick.value().wrapping_add(1))
}

} // verus!
