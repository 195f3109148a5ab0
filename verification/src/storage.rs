//! Per-component storage: a three-level block hierarchy over 128^3 slots,
//! with a chain of per-tick delta snapshots.

use vstd::prelude::*;
use crate::bits::{bit, count_below, FULL, has_bit, lemma_bit_ops, lemma_bit_single,
    lemma_empty_iff, lemma_full_iff};
use crate::block::{Block, RollbackBlock};
use crate::component::Component;
use crate::entity::Entity;
use crate::hierarchy::{CAPACITY, changed_at, changed_path, decode, inner_index, inner_ok,
    lemma_decode, lemma_encode, middle_count, middle_index, Root, root_clear_changes, root_count,
    root_index, root_len, root_cleared, root_ok, root_remove, root_set, root_touch, root_written,
    slot_index,
    value_at};
use crate::history::{is_full, is_lowest_free, lemma_rollback_idempotent, occupied_below,
    oldest_record, pop_count, ticks_ascend, Delta, Mutation, State};
use crate::restore::{deltas_of, lemma_oldest_matches, lemma_pop_count, root_rollback, roots_match};
use crate::snapshot::{chain_deltas, chain_ok, lemma_delta_of_tree, lemma_no_record_out_of_range,
    RollbackStorage, root_delta_ok, RootDelta};
use crate::tick::Tick;

verus! {

/// Why a storage operation was refused.
#[derive(Clone, Copy, PartialEq, Eq, Debug, Structural)]
pub enum StorageError {
    /// Every slot is occupied.
    StorageFull,
    /// The index lies outside `0..CAPACITY`, or names a slot that is empty.
    OutOfBounds,
    /// The target tick is strictly after the current tick while snapshots are pending.
    FutureTickRollback,
}

/// The block hierarchy of one component type, its current tick, and the
/// head of its snapshot chain.
pub struct Storage<T> {
    pub root: Root<T>,
    pub snapshot: Option<Box<RollbackStorage<T>>>,
    pub current_tick: Tick,
}

impl<T> View for Storage<T> {
    type V = State<T>;

    /// The storage as its model: occupied slots, changed slots, tick and deltas.
    open spec fn view(&self) -> State<T> {
        State {
            slots: Map::new(|i: u32| self.slot(i).is_some(), |i: u32| self.slot(i).unwrap()),
            changed: Set::new(|i: u32| self.changed(i)),
            tick: self.current_tick,
            deltas: chain_deltas(self.snapshot),
        }
    }
}

impl<T> Storage<T> {
    /// The storage's invariants: the live hierarchy is sound at every
    /// level, and so is the tree of every snapshot in the chain.
    pub open spec fn wf(&self) -> bool {
        &&& root_ok(self.root)
        &&& chain_ok(self.snapshot)
    }

    /// The storage as its model; the same as its view.
    pub open spec fn state(&self) -> State<T> {
        self@
    }

    /// What slot `index` holds; `None` when it is empty or `index` is out of range.
    pub open spec fn slot(&self, index: u32) -> Option<T> {
        if index < CAPACITY {
            value_at(self.root, root_index(index), middle_index(index), inner_index(index))
        } else {
            None
        }
    }

    /// Whether slot `index` is marked as changed since the changes were last cleared.
    pub open spec fn changed(&self, index: u32) -> bool {
        index < CAPACITY && changed_at(
            self.root,
            root_index(index),
            middle_index(index),
            inner_index(index),
        )
    }
}

impl<T> Storage<T> {
    /// The occupied slots of a leaf are counted by its presence bits.
    proof fn lemma_count_inner(&self, ri: u32, mi: u32, k: u32)
        requires
            self.wf(),
            ri < 128,
            mi < 128,
            k <= 128,
        ensures
            occupied_below(self@.slots, (ri * 16384 + mi * 128 + k) as nat) == occupied_below(
                self@.slots,
                (ri * 16384 + mi * 128) as nat,
            ) + (match self.root.slot(ri) {
                Some(middle) => match middle.slot(mi) {
                    Some(inner) => count_below(inner.presence_mask, k),
                    None => 0,
                },
                None => 0,
            }),
        decreases k,
    {
        if k > 0 {
            let i = (k - 1) as u32;
            self.lemma_count_inner(ri, mi, i);
            let index = slot_index(ri, mi, i);
            lemma_encode(ri, mi, i);
            assert(self@.slots.contains_key(index) == self.slot(index).is_some());
            match self.root.slot(ri) {
                Some(middle) => {
                    assert(bit(self.root.presence_mask, ri));
                    match middle.slot(mi) {
                        Some(inner) => {
                            assert(bit(middle.presence_mask, mi));
                            assert(inner_ok(*inner));
                        },
                        None => {},
                    }
                },
                None => {},
            }
        }
    }

    /// The occupied slots below an interior node are counted leaf by leaf.
    proof fn lemma_count_middle(&self, ri: u32, k: u32)
        requires
            self.wf(),
            ri < 128,
            k <= 128,
        ensures
            occupied_below(self@.slots, (ri * 16384 + k * 128) as nat) == occupied_below(
                self@.slots,
                (ri * 16384) as nat,
            ) + (match self.root.slot(ri) {
                Some(middle) => middle_count(*middle, k),
                None => 0,
            }),
        decreases k,
    {
        if k > 0 {
            let m = (k - 1) as u32;
            self.lemma_count_middle(ri, m);
            self.lemma_count_inner(ri, m, 128);
        }
    }

    /// The occupied slots are counted interior node by interior node.
    proof fn lemma_count_root(&self, k: u32)
        requires
            self.wf(),
            k <= 128,
        ensures
            occupied_below(self@.slots, (k * 16384) as nat) == root_count(self.root, k),
        decreases k,
    {
        if k > 0 {
            let r = (k - 1) as u32;
            self.lemma_count_root(r);
            self.lemma_count_middle(r, 128);
        }
    }
}

impl<T: Component> Storage<T> {
    /// The number of occupied slots. Full blocks are counted by the
    /// absence bits of their parents; only blocks that are partly occupied
    /// are visited.
    pub fn len(&self) -> (n: usize)
        requires
            self.wf(),
        ensures
            n == self@.len(),
            n <= CAPACITY,
    {
        proof {
            self.lemma_count_root(128);
        }
        root_len(&self.root)
    }

    /// An empty storage at tick 1, without snapshots.
    pub fn new() -> (s: Self)
        ensures
            s.wf(),
            s@ == State::<T>::initial(),
            s.current_tick == Tick(1),
            s.snapshot.is_none(),
            s.root.presence_mask == 0,
            s.root.absence_mask == 0,
            s.root.changed_mask == 0,
            forall|r: u32| s.root.slot(r).is_none(),
    {
        proof {
            lemma_bit_single(0);
        }
        let s = Storage { root: Block::new(), snapshot: None, current_tick: Tick::new(1) };
        proof {
            assert(s@.slots =~= Map::<u32, T>::empty());
            assert(s@.changed =~= Set::<u32>::empty());
        }
        s
    }

    /// Set the current tick, to which snapshots of later mutations belong.
    pub fn set_tick(&mut self, tick: Tick)
        ensures
            final(self)@ == old(self)@.set_tick(tick),
            final(self).root == old(self).root,
            final(self).snapshot == old(self).snapshot,
            old(self).wf() ==> final(self).wf(),
    {
        self.current_tick = tick;
        proof {
            assert(self@.slots =~= old(self)@.slots);
            assert(self@.changed =~= old(self)@.changed);
        }
    }

    /// The snapshot of `tick` at the head of the chain: the head itself
    /// where it belongs to `tick`, and otherwise a new, empty snapshot that
    /// is put in front of the chain.
    pub fn ensure_snapshot(snapshot: &mut Option<Box<RollbackStorage<T>>>, tick: Tick) -> (head:
        &mut RollbackStorage<T>)
        requires
            chain_ok(*old(snapshot)),
        ensures
            head.tick == tick,
            head.tree_wf(),
            match *old(snapshot) {
                Some(h) if h.tick == tick => *head == *h,
                _ => head.prev == *old(snapshot) && head.delta() == Delta::<T>::empty(tick),
            },
            *final(snapshot) == Some(Box::new(*final(head))),
    {
        let reuse = match snapshot {
            Some(s) => s.tick.0 == tick.0,
            None => false,
        };
        if !reuse {
            let prev = snapshot.take();
            let fresh = RollbackStorage::new(prev, tick);
            proof {
                assert(fresh.delta().saved =~= Map::<u32, T>::empty());
                assert(fresh.delta().added =~= Set::<u32>::empty());
            }
            *snapshot = Some(fresh);
        }
        match snapshot {
            Some(s) => &mut **s,
            None => unreached(),
        }
    }

    /// The bookkeeping before a mutation of slot `index`: unless the slot
    /// is already marked as changed, or the component is temporary, the
    /// snapshot of the current tick records what the slot holds now.
    fn log_first_change(&mut self, index: u32)
        requires
            old(self).wf(),
            index < CAPACITY,
        ensures
            final(self).wf(),
            final(self).root == old(self).root,
            final(self).current_tick == old(self).current_tick,
            final(self)@ == old(self)@.record_first_change(index, !T::IS_TEMPORARY),
    {
        let (ri, mi, ii) = decode(index);
        let mut changed = false;
        let mut present: Option<&T> = None;
        match &self.root.data[ri as usize] {
            None => {},
            Some(middle) => match &middle.data[mi as usize] {
                None => {},
                Some(inner) => {
                    changed = has_bit(inner.changed_mask, ii);
                    present = inner.data[ii as usize].as_ref();
                },
            },
        }
        assert(changed == self.changed(index));
        assert(present == match self.slot(index) {
            Some(v) => Some(&v),
            None => None,
        });
        if !changed && !T::IS_TEMPORARY {
            let ghost before = *self;
            let tick = self.current_tick;
            let head = Self::ensure_snapshot(&mut self.snapshot, tick);
            let ghost head0 = *head;
            match present {
                Some(v) => {
                    head.mark_updated(ri, mi, ii, v);
                    proof {
                        assert(head.delta().added =~= head0.delta().added);
                        assert(head.delta().saved =~= head0.delta().saved.insert(index, *v)) by {
                            assert forall|j: u32| head.saved(j) == (if j == index {
                                Some(*v)
                            } else {
                                head0.saved(j)
                            }) by {
                                if j < CAPACITY {
                                    lemma_decode(j);
                                }
                            }
                        }
                    }
                },
                None => {
                    head.mark_added(ri, mi, ii);
                    proof {
                        assert(head.delta().saved =~= head0.delta().saved);
                        assert(head.delta().added =~= head0.delta().added.insert(index)) by {
                            assert forall|j: u32| head.added(j) == (j == index || head0.added(j)) by {
                                if j < CAPACITY {
                                    lemma_decode(j);
                                }
                            }
                        }
                    }
                },
            }
            proof {
                let model = before@.record_first_change(index, true);
                assert(self@.slots =~= model.slots);
                assert(self@.changed =~= model.changed);
                assert(self@.deltas =~= model.deltas);
            }
        }
    }

    /// Store a clone of `value` in slot `index`. The first mutation of a
    /// slot within a tick is recorded in the snapshot of the current tick,
    /// unless the component is temporary; the slot is marked as changed on
    /// every level.
    ///
    /// An index at or beyond `CAPACITY` is refused with `OutOfBounds`.
    pub fn set(&mut self, index: u32, value: &T) -> (r: Result<(), StorageError>)
        requires
            old(self).wf(),
        ensures
            final(self).wf(),
            index < CAPACITY <==> r.is_ok(),
            r.is_err() ==> r == Err::<(), StorageError>(StorageError::OutOfBounds) && *final(self)
                == *old(self),
            r.is_ok() ==> final(self)@ == old(self)@.set(index, *value, !T::IS_TEMPORARY),
            r.is_ok() ==> changed_path(
                final(self).root,
                root_index(index),
                middle_index(index),
                inner_index(index),
            ),
    {
        if index >= CAPACITY {
            return Err(StorageError::OutOfBounds);
        }
        let (ri, mi, ii) = decode(index);
        self.log_first_change(index);
        let ghost logged = *self;
        let stored = value.clone();
        proof {
            T::clone_is_faithful(*value, stored);
        }
        root_set(&mut self.root, ri, mi, ii, stored);
        proof {
            let model = old(self)@.set(index, *value, !T::IS_TEMPORARY);
            assert forall|j: u32| self.slot(j) == (if j == index {
                Some(*value)
            } else {
                logged.slot(j)
            }) by {
                if j < CAPACITY {
                    lemma_decode(j);
                }
            }
            assert forall|j: u32| self.changed(j) == (logged.changed(j) || j == index) by {
                if j < CAPACITY {
                    lemma_decode(j);
                }
            }
            assert(self@.slots =~= model.slots);
            assert(self@.changed =~= model.changed);
        }
        Ok(())
    }

    /// Empty slot `index`. Nothing happens where the slot is empty or the
    /// index is out of range. Otherwise the first mutation of the slot
    /// within a tick is recorded in the snapshot of the current tick, unless
    /// the component is temporary; the value is dropped and the slot's bits
    /// are cleared on its leaf.
    pub fn remove(&mut self, index: u32)
        requires
            old(self).wf(),
        ensures
            final(self).wf(),
            final(self)@ == old(self)@.remove(index, !T::IS_TEMPORARY),
            old(self).slot(index).is_none() ==> *final(self) == *old(self),
    {
        if index >= CAPACITY {
            return ;
        }
        let (ri, mi, ii) = decode(index);
        let mut present = false;
        let mut changed = false;
        match &self.root.data[ri as usize] {
            None => {},
            Some(middle) => match &middle.data[mi as usize] {
                None => {},
                Some(inner) => {
                    present = has_bit(inner.presence_mask, ii);
                    changed = has_bit(inner.changed_mask, ii);
                },
            },
        }
        if !present {
            return ;
        }
        self.log_first_change(index);
        let ghost logged = *self;
        root_remove(&mut self.root, ri, mi, ii, !changed);
        proof {
            let model = old(self)@.remove(index, !T::IS_TEMPORARY);
            assert forall|j: u32| self.slot(j) == (if j == index {
                None
            } else {
                logged.slot(j)
            }) by {
                if j < CAPACITY {
                    lemma_decode(j);
                }
            }
            assert forall|j: u32| self.changed(j) == (logged.changed(j) && j != index) by {
                if j < CAPACITY {
                    lemma_decode(j);
                }
            }
            assert(self@.slots =~= model.slots);
            assert(self@.changed =~= model.changed);
        }
    }

    /// A mutable reference to the value in slot `index`, which is marked
    /// as changed on every level. The first mutation of a slot within a
    /// tick is recorded in the snapshot of the current tick, unless the
    /// component is temporary, whether or not the caller then writes.
    ///
    /// An empty slot, or an index out of range, is refused with `OutOfBounds`.
    pub fn get_mut(&mut self, index: u32) -> (r: Result<&mut T, StorageError>)
        requires
            old(self).wf(),
        ensures
            old(self).slot(index).is_some() <==> r.is_ok(),
            match r {
                Ok(value) => {
                    &&& *value == old(self).slot(index).unwrap()
                    &&& final(self).wf()
                    &&& final(self)@ == old(self)@.write(index, *final(value), !T::IS_TEMPORARY)
                    &&& changed_path(
                        final(self).root,
                        root_index(index),
                        middle_index(index),
                        inner_index(index),
                    )
                },
                Err(e) => e == StorageError::OutOfBounds && *final(self) == *old(self),
            },
    {
        if index >= CAPACITY {
            return Err(StorageError::OutOfBounds);
        }
        let (ri, mi, ii) = decode(index);
        let mut present = false;
        match &self.root.data[ri as usize] {
            None => {},
            Some(middle) => match &middle.data[mi as usize] {
                None => {},
                Some(inner) => {
                    present = has_bit(inner.presence_mask, ii);
                },
            },
        }
        if !present {
            return Err(StorageError::OutOfBounds);
        }
        self.log_first_change(index);
        proof {
            // Whatever the caller leaves in the slot, the storage then is
            // what the model says.
            let logged = *self;
            assert forall|after: Root<T>, v: T| #[trigger]
                root_written(logged.root, after, ri, mi, ii, v) implies (Storage {
                root: after,
                ..logged
            })@ == old(self)@.write(index, v, !T::IS_TEMPORARY) by {
                let next = Storage { root: after, ..logged };
                let model = old(self)@.write(index, v, !T::IS_TEMPORARY);
                assert forall|j: u32| next.slot(j) == (if j == index {
                    Some(v)
                } else {
                    logged.slot(j)
                }) by {
                    if j < CAPACITY {
                        lemma_decode(j);
                    }
                }
                assert forall|j: u32| next.changed(j) == (logged.changed(j) || j == index) by {
                    if j < CAPACITY {
                        lemma_decode(j);
                    }
                }
                assert(next@.slots =~= model.slots);
                assert(next@.changed =~= model.changed);
            }
        }
        Ok(root_touch(&mut self.root, ri, mi, ii))
    }

    /// Forget which slots changed: the changed bits are cleared on every
    /// level, and every block keeps its presence and absence masks. The
    /// values, the snapshots and the tick stay as they are. Only blocks that
    /// are marked as changed are visited.
    pub fn clear_changes(&mut self)
        requires
            old(self).wf(),
        ensures
            final(self).wf(),
            final(self)@ == old(self)@.clear_changes(),
            final(self).snapshot == old(self).snapshot,
            final(self).current_tick == old(self).current_tick,
            root_cleared(final(self).root, old(self).root),
            final(self).root.changed_mask == 0,
            final(self).root.presence_mask == old(self).root.presence_mask,
            final(self).root.absence_mask == old(self).root.absence_mask,
            forall|r: u32| #[trigger]
                bit(final(self).root.presence_mask, r) ==> final(self).root.slot(
                    r,
                ).unwrap().changed_mask == 0,
    {
        root_clear_changes(&mut self.root);
        proof {
            assert(self@.slots =~= old(self)@.slots);
            assert(self@.changed =~= Set::<u32>::empty());
        }
    }

    /// Take the snapshots with a tick after `target_tick` off the chain,
    /// most recent first.
    fn pop_snapshots(&mut self, target_tick: Tick) -> (popped: Vec<Box<RollbackStorage<T>>>)
        requires
            old(self).wf(),
        ensures
            final(self).wf(),
            final(self).root == old(self).root,
            final(self).current_tick == old(self).current_tick,
            forall|k: int| 0 <= k < popped@.len() ==> (#[trigger] popped@[k]).tree_wf(),
            deltas_of(popped@) + chain_deltas(final(self).snapshot) == old(self)@.deltas,
            popped@.len() == pop_count(old(self)@.deltas, target_tick),
            popped@.len() == 0 ==> final(self).snapshot == old(self).snapshot,
    {
        let ghost old_deltas = self@.deltas;
        let mut popped: Vec<Box<RollbackStorage<T>>> = Vec::with_capacity(32);
        let mut current = self.snapshot.take();
        let mut done = false;
        proof {
            assert(deltas_of(popped@) + chain_deltas(current) =~= old_deltas);
        }
        while !done
            invariant
                chain_ok(current),
                forall|k: int| 0 <= k < popped@.len() ==> (#[trigger] popped@[k]).tree_wf(),
                forall|k: int|
                    0 <= k < popped@.len() ==> (#[trigger] popped@[k]).tick.0 > target_tick.0,
                deltas_of(popped@) + chain_deltas(current) == old_deltas,
                done ==> (match current {
                    Some(head) => head.tick.0 <= target_tick.0,
                    None => true,
                }),
                self.root == old(self).root,
                self.current_tick == old(self).current_tick,
                self.snapshot.is_none(),
                popped@.len() == 0 ==> current == old(self).snapshot,
            decreases
                    (match current {
                        Some(head) => head.depth(),
                        None => 0,
                    }) + (if done {
                        0nat
                    } else {
                        1nat
                    }),
        {
            match current {
                None => {
                    current = None;
                    done = true;
                },
                Some(mut snapshot) => {
                    if snapshot.tick.0 <= target_tick.0 {
                        // This snapshot is at or before the target: keep it and stop.
                        current = Some(snapshot);
                        done = true;
                    } else {
                        let ghost head = *snapshot;
                        let prev = snapshot.prev.take();
                        proof {
                            lemma_delta_of_tree(*snapshot, head);
                            assert(deltas_of(popped@.push(snapshot)) + chain_deltas(prev)
                                =~= deltas_of(popped@) + chain_deltas(Some(Box::new(head))));
                        }
                        popped.push(snapshot);
                        current = prev;
                    }
                },
            }
        }
        self.snapshot = current;
        proof {
            lemma_pop_count(deltas_of(popped@), chain_deltas(self.snapshot), target_tick);
        }
        popped
    }

    /// Put the snapshots `popped` (most recent first) back in front of the chain.
    fn restore_chain(&mut self, popped: Vec<Box<RollbackStorage<T>>>)
        requires
            old(self).wf(),
            forall|k: int| 0 <= k < popped@.len() ==> (#[trigger] popped@[k]).tree_wf(),
        ensures
            final(self).wf(),
            final(self).root == old(self).root,
            final(self).current_tick == old(self).current_tick,
            chain_deltas(final(self).snapshot) == deltas_of(popped@) + chain_deltas(
                old(self).snapshot,
            ),
    {
        let mut popped = popped;
        let ghost all = deltas_of(popped@) + chain_deltas(self.snapshot);
        while popped.len() > 0
            invariant
                chain_ok(self.snapshot),
                root_ok(self.root),
                forall|k: int| 0 <= k < popped@.len() ==> (#[trigger] popped@[k]).tree_wf(),
                deltas_of(popped@) + chain_deltas(self.snapshot) == all,
                self.root == old(self).root,
                self.current_tick == old(self).current_tick,
            decreases popped@.len(),
        {
            let ghost before = popped@;
            let ghost chain = self.snapshot;
            if let Some(mut snapshot) = popped.pop() {
                let ghost last = *snapshot;
                snapshot.prev = self.snapshot.take();
                proof {
                    lemma_delta_of_tree(*snapshot, last);
                    assert(deltas_of(popped@) + chain_deltas(Some(snapshot)) =~= deltas_of(before)
                        + chain_deltas(chain));
                }
                self.snapshot = Some(snapshot);
            }
        }
        proof {
            assert(deltas_of(popped@) + chain_deltas(self.snapshot) =~= chain_deltas(
                self.snapshot,
            ));
        }
    }

    /// Apply the snapshots `popped` (most recent first) to the live hierarchy.
    fn apply_snapshots(&mut self, popped: &Vec<Box<RollbackStorage<T>>>)
        requires
            old(self).wf(),
            forall|k: int| 0 <= k < popped@.len() ==> (#[trigger] popped@[k]).tree_wf(),
        ensures
            final(self).wf(),
            final(self).snapshot == old(self).snapshot,
            final(self).current_tick == old(self).current_tick,
            forall|index: u32|
                final(self).slot(index) == (match oldest_record(deltas_of(popped@), index) {
                    Some(pre) => pre,
                    None => old(self).slot(index),
                }),
            forall|index: u32|
                final(self).changed(index) == (old(self).changed(index) && oldest_record(
                    deltas_of(popped@),
                    index,
                ).is_none()),
    {
        let mut roots: Vec<&RootDelta<T>> =
            Vec::with_capacity(popped.len());
        let mut k: usize = 0;
        while k < popped.len()
            invariant
                k <= popped@.len(),
                roots@.len() == k,
                forall|j: int| 0 <= j < k ==> *#[trigger] roots@[j] == popped@[j].root,
            decreases popped@.len() - k,
        {
            roots.push(&popped[k].root);
            k += 1;
        }
        proof {
            assert(roots_match(roots@, popped@));
            assert forall|j: int| 0 <= j < roots@.len() implies root_delta_ok(
                *#[trigger] roots@[j],
            ) by {
                assert(popped@[j].tree_wf());
            }
        }
        root_rollback(&roots, &mut self.root);
        proof {
            assert forall|index: u32|
                self.slot(index) == (match oldest_record(deltas_of(popped@), index) {
                    Some(pre) => pre,
                    None => old(self).slot(index),
                }) && self.changed(index) == (old(self).changed(index) && oldest_record(
                    deltas_of(popped@),
                    index,
                ).is_none()) by {
                if index < CAPACITY {
                    lemma_oldest_matches(roots@, popped@, index);
                } else {
                    lemma_no_record_out_of_range(popped@, index);
                }
            }
        }
    }

    /// Bring the storage back to what it was at the end of `target_tick`.
    ///
    /// The snapshots of later ticks are taken off the chain, and every slot
    /// that one of them records is set to what the oldest of them that
    /// records it says the slot held before: it is emptied, or it gets a
    /// clone of the saved pre-image. The changed bits of these slots are
    /// cleared, fullness is recomputed, and the current tick becomes
    /// `target_tick`.
    ///
    /// Where `target_tick` is strictly after the current tick and there are
    /// snapshots to take off, the chain is left as it was and the rollback is
    /// refused with `FutureTickRollback`.
    pub fn rollback(&mut self, target_tick: Tick) -> (r: Result<(), StorageError>)
        requires
            old(self).wf(),
        ensures
            final(self).wf(),
            r.is_err() <==> old(self)@.rollback_refused(target_tick),
            r.is_err() ==> r == Err::<(), StorageError>(StorageError::FutureTickRollback)
                && final(self)@ == old(self)@ && final(self).root == old(self).root,
            r.is_ok() ==> final(self)@ == old(self)@.rollback(target_tick),
            r.is_ok() ==> final(self).current_tick == target_tick,
            r.is_ok() ==> pop_count(final(self)@.deltas, target_tick) == 0,
            pop_count(old(self)@.deltas, target_tick) == 0 ==> final(self).root == old(self).root
                && final(self).snapshot == old(self).snapshot,
    {
        // Collect the snapshots that are rolled back: those with a later tick.
        let popped = self.pop_snapshots(target_tick);
        proof {
            assert(old(self)@.popped(target_tick) =~= deltas_of(popped@));
            assert(old(self)@.deltas.skip(popped@.len() as int) =~= chain_deltas(self.snapshot));
        }
        if popped.len() > 0 && target_tick.is_after(self.current_tick) {
            // Put the chain back as it was.
            self.restore_chain(popped);
            proof {
                assert(self@.slots =~= old(self)@.slots);
                assert(self@.changed =~= old(self)@.changed);
            }
            return Err(StorageError::FutureTickRollback);
        }
        // Where snapshots were taken off, apply them to the live hierarchy.
        let ghost taken = deltas_of(popped@);
        let ghost unapplied = *self;
        if popped.len() > 0 {
            self.apply_snapshots(&popped);
        }
        proof {
            assert forall|i: u32|
                self.changed(i) == (old(self).changed(i) && oldest_record(taken, i).is_none())
                && self.slot(i) == (match oldest_record(taken, i) {
                    Some(pre) => pre,
                    None => old(self).slot(i),
                }) by {
                assert(unapplied.changed(i) == old(self).changed(i));
                assert(unapplied.slot(i) == old(self).slot(i));
                if popped@.len() == 0 {
                    assert(oldest_record(taken, i).is_none());
                }
            }
        }
        let ghost applied = *self;
        self.current_tick = target_tick;
        proof {
            let model = old(self)@.rollback(target_tick);
            assert forall|i: u32|
                self.changed(i) == applied.changed(i) && self.slot(i) == applied.slot(i) by {}
            assert(old(self)@.popped(target_tick) == taken);
            assert forall|i: u32| self@.changed.contains(i) == model.changed.contains(i) by {
                assert(self@.changed.contains(i) == self.changed(i));
                assert(old(self)@.changed.contains(i) == old(self).changed(i));
            }
            assert forall|i: u32| self.slot(i) == old(self)@.restored(target_tick, i) by {
                assert(self.slot(i) == applied.slot(i));
                assert(old(self)@.slots.contains_key(i) == old(self).slot(i).is_some());
            }
            assert forall|i: u32|
                self@.slots.contains_key(i) == model.slots.contains_key(i) && (
                self@.slots.contains_key(i) ==> self@.slots[i] == model.slots[i]) by {
                assert(self@.slots.contains_key(i) == self.slot(i).is_some());
                assert(model.slots.contains_key(i) == old(self)@.restored(target_tick, i).is_some());
            }
            assert(self@.slots =~= model.slots);
            assert(self@.changed =~= model.changed);
            lemma_rollback_idempotent(old(self)@, target_tick);
        }
        Ok(())
    }

    /// The value in slot `index`, if the slot is occupied.
    pub fn get(&self, index: u32) -> (r: Option<&T>)
        requires
            self.wf(),
        ensures
            r == match self.slot(index) {
                Some(v) => Some(&v),
                None => None,
            },
    {
        if index >= CAPACITY {
            return None;
        }
        let (ri, mi, ii) = decode(index);
        match &self.root.data[ri as usize] {
            None => None,
            Some(middle) => match &middle.data[mi as usize] {
                None => None,
                Some(inner) => inner.data[ii as usize].as_ref(),
            },
        }
    }
}

/// The lowest clear bit of a mask that is not full.
fn lowest_clear(m: u128) -> (i: u32)
    requires
        m != FULL,
    ensures
        i < 128,
        !bit(m, i),
        forall|j: u32| j < i ==> bit(m, j),
{
    proof {
        lemma_bit_ops(m, m);
        lemma_full_iff(m);
        lemma_empty_iff(!m);
    }
    let free = !m;
    let i = free.trailing_zeros();
    proof {
        assert forall|j: u32| j < i implies bit(m, j) by {
            assert(!bit(free, j));
        }
    }
    i
}

impl<T> Storage<T> {
    /// Every slot below a full interior node is occupied.
    proof fn lemma_full_middle(&self, ri: u32, mi: u32, ii: u32)
        requires
            self.wf(),
            ri < 128,
            mi < 128,
            ii < 128,
            bit(self.root.absence_mask, ri),
        ensures
            value_at(self.root, ri, mi, ii).is_some(),
    {
        assert(bit(self.root.presence_mask, ri));
        let middle = *self.root.slot(ri).unwrap();
        lemma_full_iff(middle.absence_mask);
        assert(bit(middle.absence_mask, mi));
        assert(bit(middle.presence_mask, mi));
        let inner = *middle.slot(mi).unwrap();
        lemma_full_iff(inner.absence_mask);
        assert(bit(inner.presence_mask, ii));
    }

    /// Every slot of a full leaf is occupied.
    proof fn lemma_full_inner(&self, ri: u32, mi: u32, ii: u32)
        requires
            self.wf(),
            ri < 128,
            mi < 128,
            ii < 128,
            self.root.slot(ri).is_some(),
            bit(self.root.slot(ri).unwrap().absence_mask, mi),
        ensures
            value_at(self.root, ri, mi, ii).is_some(),
    {
        assert(bit(self.root.presence_mask, ri));
        let middle = *self.root.slot(ri).unwrap();
        assert(bit(middle.presence_mask, mi));
        let inner = *middle.slot(mi).unwrap();
        lemma_full_iff(inner.absence_mask);
        assert(bit(inner.presence_mask, ii));
    }

    /// The lowest index that is not occupied, if there is one: the lowest
    /// clear absence bit is followed from the root down to a leaf.
    pub fn lowest_free(&self) -> (r: Option<u32>)
        requires
            self.wf(),
        ensures
            match r {
                Some(index) => is_lowest_free(self@.slots, CAPACITY, index),
                None => is_full(self@.slots, CAPACITY),
            },
    {
        let root = &self.root;
        if root.absence_mask == FULL {
            proof {
                lemma_full_iff(root.absence_mask);
                assert forall|j: u32| j < CAPACITY implies self@.slots.contains_key(j) by {
                    lemma_decode(j);
                    self.lemma_full_middle(root_index(j), middle_index(j), inner_index(j));
                }
            }
            return None;
        }
        // Find a free slot in the root.
        let ri = lowest_clear(root.absence_mask);
        let mut mi: u32 = 0;
        let mut ii: u32 = 0;
        match &root.data[ri as usize] {
            None => {},
            Some(middle) => {
                proof {
                    assert(bit(root.presence_mask, ri));
                }
                // Find a free slot in the interior node.
                mi = lowest_clear(middle.absence_mask);
                match &middle.data[mi as usize] {
                    None => {},
                    Some(inner) => {
                        proof {
                            assert(bit(middle.presence_mask, mi));
                        }
                        // Find a free slot in the leaf.
                        ii = lowest_clear(inner.absence_mask);
                    },
                }
            },
        }
        let index = ri * 16384 + mi * 128 + ii;
        proof {
            lemma_encode(ri, mi, ii);
            assert(self.slot(index).is_none()) by {
                if root.slot(ri).is_some() {
                    assert(bit(root.presence_mask, ri));
                    let middle = *root.slot(ri).unwrap();
                    if middle.slot(mi).is_some() {
                        assert(bit(middle.presence_mask, mi));
                    }
                }
            }
            assert forall|j: u32| j < index implies self@.slots.contains_key(j) by {
                lemma_decode(j);
                let rj = root_index(j);
                let mj = middle_index(j);
                let ij = inner_index(j);
                if rj < ri {
                    self.lemma_full_middle(rj, mj, ij);
                } else {
                    assert(rj == ri);
                    if mj < mi {
                        self.lemma_full_inner(rj, mj, ij);
                    } else {
                        assert(mj == mi);
                        assert(ij < ii);
                        assert(bit(root.presence_mask, ri));
                        let middle = *root.slot(ri).unwrap();
                        assert(bit(middle.presence_mask, mi));
                        let inner = *middle.slot(mi).unwrap();
                        assert(bit(inner.absence_mask, ij));
                        assert(bit(inner.presence_mask, ij));
                    }
                }
            }
        }
        Some(index)
    }
}

impl Storage<Entity> {
    /// Create an entity in the lowest free slot. The new handle has that
    /// slot's index and generation 1; it is stored like any component, so
    /// the snapshot of the current tick records that the slot was empty.
    ///
    /// Where every slot is occupied, the call is refused with `StorageFull`.
    pub fn spawn(&mut self) -> (r: Result<Entity, StorageError>)
        requires
            old(self).wf(),
        ensures
            final(self).wf(),
            r.is_err() <==> is_full(old(self)@.slots, CAPACITY),
            match r {
                Ok(entity) => {
                    &&& is_lowest_free(old(self)@.slots, CAPACITY, entity.spec_index() as u32)
                    &&& entity.spec_generation() == 1
                    &&& final(self)@ == old(self)@.set(entity.spec_index() as u32, entity, true)
                },
                Err(e) => e == StorageError::StorageFull && *final(self) == *old(self),
            },
    {
        match self.lowest_free() {
            None => Err(StorageError::StorageFull),
            Some(index) => {
                let mut entity = Entity::new(index, 0);
                entity.increment_generation();
                proof {
                    crate::component::lemma_temporary_components();
                }
                let stored = self.set(index, &entity);
                Ok(entity)
            },
        }
    }
}

/// **Round-trip rollback of a storage.** Let `start` be a storage with a
/// sound history at a tick that is not after `target`, and let `rolled` be
/// what a rollback to `target` leaves after logged mutations were made
/// during ticks that never go back and are all after `target`, within a
/// window of 2^31 ticks. Then `rolled` holds in every slot what `start`
/// holds there, it holds as many values, its chain of snapshots records what
/// that of `start` records, and its tick is `target`. Where no slot of `start`
/// is marked as changed, none of `rolled` is.
pub proof fn lemma_storage_round_trip<T>(
    start: Storage<T>,
    rolled: Storage<T>,
    mutations: Seq<Mutation<T>>,
    target: Tick,
)
    requires
        start@.history_ok(),
        start.current_tick.0 <= target.0,
        ticks_ascend(start.current_tick, mutations),
        forall|k: int| 0 <= k < mutations.len() ==> (#[trigger] mutations[k]).tick.0 > target.0,
        mutations.len() > 0 ==> mutations.last().tick.0 - target.0 < 0x8000_0000,
        rolled@ == start@.replay(mutations).rollback(target),
    ensures
        !start@.replay(mutations).rollback_refused(target),
        forall|index: u32| rolled.slot(index) == start.slot(index),
        rolled@.len() == start@.len(),
        rolled@.deltas == start@.deltas,
        start@.changed == Set::<u32>::empty() ==> rolled@.changed == Set::<u32>::empty(),
        rolled.current_tick == target,
{
    start@.lemma_round_trip(mutations, target);
    start@.lemma_round_trip_chain(mutations, target);
    assert forall|index: u32| rolled.slot(index) == start.slot(index) by {
        assert(rolled@.slots.contains_key(index) == rolled.slot(index).is_some());
        assert(start@.slots.contains_key(index) == start.slot(index).is_some());
        if rolled.slot(index).is_some() {
            assert(rolled@.slots[index] == rolled.slot(index).unwrap());
            assert(start@.slots[index] == start.slot(index).unwrap());
        }
    }
}

/// **Partial rollback of a storage.** Let logged mutations be made on a
/// storage `start` with a sound history, during ticks that never go back:
/// first `earlier`, during ticks at or before `target`, which leave the
/// storage as `kept`, then `later`, during ticks after `target`, within a
/// window of 2^31 ticks. Let `rolled` be what a rollback to `target` then
/// leaves. Then `rolled` holds in every slot what `kept` holds there, it
/// holds as many values, and its chain of snapshots records what that of
/// `kept` records: the snapshots of later ticks are gone.
pub proof fn lemma_storage_partial_rollback<T>(
    start: Storage<T>,
    kept: Storage<T>,
    rolled: Storage<T>,
    earlier: Seq<Mutation<T>>,
    later: Seq<Mutation<T>>,
    target: Tick,
)
    requires
        start@.history_ok(),
        start.current_tick.0 <= target.0,
        ticks_ascend(start.current_tick, earlier + later),
        forall|k: int| 0 <= k < earlier.len() ==> (#[trigger] earlier[k]).tick.0 <= target.0,
        forall|k: int| 0 <= k < later.len() ==> (#[trigger] later[k]).tick.0 > target.0,
        later.len() > 0 ==> later.last().tick.0 - target.0 < 0x8000_0000,
        kept@ == start@.replay(earlier),
        rolled@ == start@.replay(earlier + later).rollback(target),
    ensures
        !start@.replay(earlier + later).rollback_refused(target),
        forall|index: u32| rolled.slot(index) == kept.slot(index),
        rolled@.len() == kept@.len(),
        rolled@.deltas == kept@.deltas,
        rolled.current_tick == target,
{
    start@.lemma_partial_rollback(earlier, later, target);
    assert forall|index: u32| rolled.slot(index) == kept.slot(index) by {
        assert(rolled@.slots.contains_key(index) == rolled.slot(index).is_some());
        assert(kept@.slots.contains_key(index) == kept.slot(index).is_some());
        if rolled.slot(index).is_some() {
            assert(rolled@.slots[index] == rolled.slot(index).unwrap());
            assert(kept@.slots[index] == kept.slot(index).unwrap());
        }
    }
}

} // verus!
