//! The mathematical model of a storage and of its snapshot chain, and the
//! laws of rollback that hold of it.

use vstd::prelude::*;
use crate::tick::Tick;

verus! {

/// The delta of one tick: for the slots that changed during the tick, what
/// they held when the tick began.
pub struct Delta<T> {
    /// The tick that the delta belongs to.
    pub tick: Tick,
    /// The slots that held a value before the tick's first change to them,
    /// with that value.
    pub saved: Map<u32, T>,
    /// The slots marked as absent before the tick's first change to them.
    pub added: Set<u32>,
}

/// What a storage is: the occupied slots with their values, the slots
/// marked as changed, the current tick, and the deltas, most recent first.
pub struct State<T> {
    pub slots: Map<u32, T>,
    pub changed: Set<u32>,
    pub tick: Tick,
    pub deltas: Seq<Delta<T>>,
}

/// The number of occupied slots among the indices below `n`.
pub open spec fn occupied_below<T>(slots: Map<u32, T>, n: nat) -> nat
    decreases n,
{
    if n == 0 {
        0
    } else {
        occupied_below(slots, (n - 1) as nat) + if slots.contains_key((n - 1) as u32) {
            1nat
        } else {
            0nat
        }
    }
}

/// Whether `index` is the lowest index below `capacity` that is not occupied.
pub open spec fn is_lowest_free<T>(slots: Map<u32, T>, capacity: u32, index: u32) -> bool {
    &&& index < capacity
    &&& !slots.contains_key(index)
    &&& forall|j: u32| j < index ==> slots.contains_key(j)
}

/// Whether every index below `capacity` is occupied.
pub open spec fn is_full<T>(slots: Map<u32, T>, capacity: u32) -> bool {
    forall|j: u32| j < capacity ==> slots.contains_key(j)
}

impl<T> Delta<T> {
    /// The delta of a tick during which nothing changed yet.
    pub open spec fn empty(tick: Tick) -> Delta<T> {
        Delta { tick, saved: Map::empty(), added: Set::empty() }
    }

    /// Whether the delta says anything of slot `index`.
    pub open spec fn records(self, index: u32) -> bool {
        self.saved.contains_key(index) || self.added.contains(index)
    }

    /// What slot `index` held when the tick began, for a slot that the
    /// delta records: a saved pre-image wins over an added mark.
    pub open spec fn before(self, index: u32) -> Option<T> {
        if self.saved.contains_key(index) {
            Some(self.saved[index])
        } else {
            None
        }
    }
}

/// How many deltas a rollback to `target` takes from the front of the
/// chain: those before the first one whose tick is at or before `target`.
pub open spec fn pop_count<T>(deltas: Seq<Delta<T>>, target: Tick) -> nat
    decreases deltas.len(),
{
    if deltas.len() == 0 || deltas[0].tick.0 <= target.0 {
        0
    } else {
        1 + pop_count(deltas.skip(1), target)
    }
}

/// What the oldest of the deltas `popped` (most recent first) that
/// records slot `index` says the slot held before: `None` where no delta
/// records the slot, `Some(None)` where the slot was absent.
pub open spec fn oldest_record<T>(popped: Seq<Delta<T>>, index: u32) -> Option<Option<T>>
    decreases popped.len(),
{
    if popped.len() == 0 {
        None
    } else if popped.last().records(index) {
        Some(popped.last().before(index))
    } else {
        oldest_record(popped.drop_last(), index)
    }
}

impl<T> State<T> {
    /// The state of a new storage: nothing is stored, nothing is marked
    /// as changed, the tick is 1, and there are no deltas.
    pub open spec fn initial() -> State<T> {
        State { slots: Map::empty(), changed: Set::empty(), tick: Tick(1), deltas: Seq::empty() }
    }

    /// The number of occupied slots.
    pub open spec fn len(self) -> nat {
        occupied_below(self.slots, 2097152)
    }

    /// Whether the most recent delta belongs to the current tick.
    pub open spec fn head_is_current(self) -> bool {
        self.deltas.len() > 0 && self.deltas[0].tick == self.tick
    }

    /// The state with a delta for the current tick at the front of the
    /// chain: an empty one is put there unless the most recent delta
    /// already belongs to the current tick.
    pub open spec fn with_head(self) -> State<T> {
        if self.head_is_current() {
            self
        } else {
            State { deltas: seq![Delta::empty(self.tick)] + self.deltas, ..self }
        }
    }

    /// The state after saving `value` as the pre-image of slot `index` in
    /// the delta of the current tick.
    pub open spec fn record_saved(self, index: u32, value: T) -> State<T> {
        let s = self.with_head();
        let head = s.deltas[0];
        State {
            deltas: s.deltas.update(0, Delta { saved: head.saved.insert(index, value), ..head }),
            ..s
        }
    }

    /// The state after marking slot `index` as added in the delta of the
    /// current tick.
    pub open spec fn record_added(self, index: u32) -> State<T> {
        let s = self.with_head();
        let head = s.deltas[0];
        State {
            deltas: s.deltas.update(0, Delta { added: head.added.insert(index), ..head }),
            ..s
        }
    }

    /// The bookkeeping of a mutation of slot `index`: where the slot is
    /// not yet marked as changed and the component is logged for rollback, the delta of
    /// the current tick records what the slot holds now.
    pub open spec fn record_first_change(self, index: u32, logged: bool) -> State<T> {
        if self.changed.contains(index) || !logged {
            self
        } else if self.slots.contains_key(index) {
            self.record_saved(index, self.slots[index])
        } else {
            self.record_added(index)
        }
    }

    /// The state after `set(index, value)`.
    pub open spec fn set(self, index: u32, value: T, logged: bool) -> State<T> {
        let s = self.record_first_change(index, logged);
        State { slots: s.slots.insert(index, value), changed: s.changed.insert(index), ..s }
    }

    /// The state after `remove(index)`: unchanged where the slot is empty.
    pub open spec fn remove(self, index: u32, logged: bool) -> State<T> {
        if !self.slots.contains_key(index) {
            self
        } else {
            let s = self.record_first_change(index, logged);
            State { slots: s.slots.remove(index), changed: s.changed.remove(index), ..s }
        }
    }

    /// The state after taking a mutable reference to the value in slot
    /// `index` and leaving `value` there.
    pub open spec fn write(self, index: u32, value: T, logged: bool) -> State<T> {
        self.set(index, value, logged)
    }

    /// The state after the slots `gone` were emptied without a record:
    /// they hold nothing and are not marked as changed.
    pub open spec fn without(self, gone: Set<u32>) -> State<T> {
        State {
            slots: self.slots.remove_keys(gone),
            changed: self.changed.difference(gone),
            ..self
        }
    }

    /// The state after `clear_changes()`.
    pub open spec fn clear_changes(self) -> State<T> {
        State { changed: Set::empty(), ..self }
    }

    /// The state after `set_tick(tick)`.
    pub open spec fn set_tick(self, tick: Tick) -> State<T> {
        State { tick, ..self }
    }

    /// The deltas that a rollback to `target` takes off the chain, most recent first.
    pub open spec fn popped(self, target: Tick) -> Seq<Delta<T>> {
        self.deltas.take(pop_count(self.deltas, target) as int)
    }

    /// What slot `index` holds after a rollback to `target`: what the
    /// oldest popped delta that records the slot says it held before, and
    /// what it holds now where none records it.
    pub open spec fn restored(self, target: Tick, index: u32) -> Option<T> {
        match oldest_record(self.popped(target), index) {
            Some(before) => before,
            None => if self.slots.contains_key(index) {
                Some(self.slots[index])
            } else {
                None
            },
        }
    }

    /// Whether a rollback to `target` is refused: the target is strictly
    /// after the current tick while there are deltas to take off.
    pub open spec fn rollback_refused(self, target: Tick) -> bool {
        pop_count(self.deltas, target) > 0 && target.spec_is_after(self.tick)
    }

    /// The state after a rollback to `target` that is not refused.
    pub open spec fn rollback(self, target: Tick) -> State<T> {
        State {
            slots: Map::new(
                |i: u32| self.restored(target, i).is_some(),
                |i: u32| self.restored(target, i).unwrap(),
            ),
            changed: Set::new(
                |i: u32| self.changed.contains(i) && oldest_record(self.popped(target), i).is_none(),
            ),
            tick: target,
            deltas: self.deltas.skip(pop_count(self.deltas, target) as int),
        }
    }
}

/// A mutation of one slot.
pub enum Op<T> {
    /// Store a value in a slot.
    Store(u32, T),
    /// Empty a slot.
    Clear(u32),
}

/// A mutation together with the tick during which it is made.
pub struct Mutation<T> {
    pub tick: Tick,
    pub op: Op<T>,
}

/// The ticks of `mutations` never go back, starting from `start`.
pub open spec fn ticks_ascend<T>(start: Tick, mutations: Seq<Mutation<T>>) -> bool {
    &&& mutations.len() > 0 ==> start.0 <= mutations[0].tick.0
    &&& forall|k: int|
        0 <= k < mutations.len() - 1 ==> (#[trigger] mutations[k]).tick.0 <= mutations[k
            + 1].tick.0
}

impl<T> State<T> {
    /// What a rollback relies on: the ticks of the deltas strictly
    /// decrease along the chain and none is after the current tick; a slot
    /// that is marked as changed is recorded in the delta of the current
    /// tick; and an occupied slot that this delta records is marked as
    /// changed.
    pub open spec fn history_ok(self) -> bool {
        &&& forall|k: int|
            0 <= k < self.deltas.len() - 1 ==> (#[trigger] self.deltas[k]).tick.0 > self.deltas[k
                + 1].tick.0
        &&& self.deltas.len() > 0 ==> self.deltas[0].tick.0 <= self.tick.0
        &&& forall|i: u32|
            self.changed.contains(i) ==> self.head_is_current() && self.deltas[0].records(i)
        &&& forall|i: u32|
            self.head_is_current() && self.deltas[0].records(i) && self.slots.contains_key(i)
                ==> self.changed.contains(i)
    }

    /// The history of a new storage is sound.
    pub proof fn lemma_initial_sound()
        ensures
            State::<T>::initial().history_ok(),
    {
    }

    /// The state at the start of `tick`: the changes of the tick before
    /// are cleared when the tick moves on.
    pub open spec fn at_tick(self, tick: Tick) -> State<T> {
        if self.tick == tick {
            self
        } else {
            self.clear_changes().set_tick(tick)
        }
    }

    /// The state after the logged mutation `m`, made during its tick.
    pub open spec fn apply(self, m: Mutation<T>) -> State<T> {
        let s = self.at_tick(m.tick);
        match m.op {
            Op::Store(index, value) => s.set(index, value, true),
            Op::Clear(index) => s.remove(index, true),
        }
    }

    /// The state after the logged mutations `mutations`, in order.
    pub open spec fn replay(self, mutations: Seq<Mutation<T>>) -> State<T>
        decreases mutations.len(),
    {
        if mutations.len() == 0 {
            self
        } else {
            self.replay(mutations.drop_last()).apply(mutations.last())
        }
    }
}

/// How many deltas a rollback takes off depends on their ticks alone.
proof fn lemma_pop_count_ticks<T>(a: Seq<Delta<T>>, b: Seq<Delta<T>>, target: Tick)
    requires
        a.len() == b.len(),
        forall|k: int| 0 <= k < a.len() ==> (#[trigger] a[k]).tick == b[k].tick,
    ensures
        pop_count(a, target) == pop_count(b, target),
    decreases a.len(),
{
    if a.len() > 0 {
        assert(a[0].tick == b[0].tick);
        assert forall|k: int| 0 <= k < a.skip(1).len() implies (#[trigger] a.skip(1)[k]).tick
            == b.skip(1)[k].tick by {
            assert(a.skip(1)[k] == a[k + 1]);
            assert(a[k + 1].tick == b[k + 1].tick);
        }
        lemma_pop_count_ticks(a.skip(1), b.skip(1), target);
    }
}

/// A rollback never takes off more deltas than there are.
proof fn lemma_pop_count_bound<T>(deltas: Seq<Delta<T>>, target: Tick)
    ensures
        pop_count(deltas, target) <= deltas.len(),
    decreases deltas.len(),
{
    if deltas.len() > 0 {
        lemma_pop_count_bound(deltas.skip(1), target);
    }
}

/// The most recent delta has the last word only where no older one records the slot.
proof fn lemma_oldest_front<T>(head: Delta<T>, older: Seq<Delta<T>>, index: u32)
    ensures
        oldest_record(seq![head] + older, index) == (match oldest_record(older, index) {
            Some(before) => Some(before),
            None => if head.records(index) {
                Some(head.before(index))
            } else {
                None
            },
        }),
    decreases older.len(),
{
    let all = seq![head] + older;
    if older.len() == 0 {
        assert(all.last() == head);
        assert(all.drop_last() =~= Seq::<Delta<T>>::empty());
    } else {
        assert(all.last() == older.last());
        assert(all.drop_last() =~= seq![head] + older.drop_last());
        lemma_oldest_front(head, older.drop_last(), index);
    }
}

/// With strictly decreasing ticks, a chain whose first delta is at or
/// before the target loses nothing in a rollback.
proof fn lemma_pop_count_zero<T>(deltas: Seq<Delta<T>>, target: Tick)
    requires
        deltas.len() == 0 || deltas[0].tick.0 <= target.0,
    ensures
        pop_count(deltas, target) == 0,
{
}

/// **Idempotent rollback.** Two successive rollbacks to the same tick
/// leave the storage as one does: after the first, no delta is left to take
/// off, so the second is not refused and changes nothing.
pub proof fn lemma_rollback_idempotent<T>(s: State<T>, target: Tick)
    ensures
        pop_count(s.rollback(target).deltas, target) == 0,
        !s.rollback(target).rollback_refused(target),
        s.rollback(target).rollback(target) == s.rollback(target),
{
    let once = s.rollback(target);
    let k = pop_count(s.deltas, target);
    lemma_pop_count_bound(s.deltas, target);
    lemma_pop_count_stops(s.deltas, target);
    assert(pop_count(once.deltas, target) == 0);
    let twice = once.rollback(target);
    assert(once.popped(target) =~= Seq::<Delta<T>>::empty());
    assert(twice.deltas =~= once.deltas);
    assert(twice.slots =~= once.slots);
    assert(twice.changed =~= once.changed);
}

/// What a rollback leaves on the chain starts at or before the target.
proof fn lemma_pop_count_stops<T>(deltas: Seq<Delta<T>>, target: Tick)
    ensures
        pop_count(deltas, target) <= deltas.len(),
        pop_count(deltas, target) < deltas.len() ==> deltas[pop_count(deltas, target) as int].tick.0
            <= target.0,
        forall|k: int| 0 <= k < pop_count(deltas, target) ==> (#[trigger] deltas[k]).tick.0 > target.0,
    decreases deltas.len(),
{
    if deltas.len() > 0 && deltas[0].tick.0 > target.0 {
        lemma_pop_count_stops(deltas.skip(1), target);
        let k = pop_count(deltas.skip(1), target);
        if k < deltas.skip(1).len() {
            assert(deltas.skip(1)[k as int] == deltas[k as int + 1]);
        }
        assert forall|j: int| 0 <= j < pop_count(deltas, target) implies (
        #[trigger] deltas[j]).tick.0 > target.0 by {
            if j > 0 {
                assert(deltas.skip(1)[j - 1] == deltas[j]);
            }
        }
    }
}

/// The deltas that a rollback takes off a chain whose first delta is
/// after the target: that delta, and what is taken off the rest.
proof fn lemma_popped_front<T>(deltas: Seq<Delta<T>>, target: Tick)
    requires
        deltas.len() > 0,
        deltas[0].tick.0 > target.0,
    ensures
        pop_count(deltas, target) == 1 + pop_count(deltas.skip(1), target),
        deltas.take(pop_count(deltas, target) as int) == seq![deltas[0]] + deltas.skip(1).take(
            pop_count(deltas.skip(1), target) as int,
        ),
{
    lemma_pop_count_bound(deltas.skip(1), target);
    assert(deltas.take(pop_count(deltas, target) as int) =~= seq![deltas[0]] + deltas.skip(1).take(
        pop_count(deltas.skip(1), target) as int,
    ));
}

/// The chain `now` is the chain `base` with deltas in front of it whose
/// ticks are after `target`, while the ticks of `base` are not.
pub open spec fn grown_from<T>(now: Seq<Delta<T>>, base: Seq<Delta<T>>, target: Tick) -> bool {
    &&& now.len() >= base.len()
    &&& now.skip(now.len() - base.len()) =~= base
    &&& forall|k: int| 0 <= k < now.len() - base.len() ==> (#[trigger] now[k]).tick.0 > target.0
    &&& base.len() > 0 ==> base[0].tick.0 <= target.0
}

/// A rollback takes off exactly what has grown in front of the chain.
proof fn lemma_pop_grown<T>(now: Seq<Delta<T>>, base: Seq<Delta<T>>, target: Tick)
    requires
        grown_from(now, base, target),
    ensures
        pop_count(now, target) == now.len() - base.len(),
        now.skip(pop_count(now, target) as int) =~= base,
    decreases now.len(),
{
    let k = now.len() - base.len();
    if k == 0 {
        assert(now =~= base);
    } else {
        let rest = now.skip(1);
        assert(rest.skip(rest.len() - base.len()) =~= now.skip(now.len() - base.len()));
        assert forall|j: int| 0 <= j < rest.len() - base.len() implies (#[trigger] rest[j]).tick.0
            > target.0 by {
            assert(rest[j] == now[j + 1]);
        }
        lemma_pop_grown(rest, base, target);
        assert(now[0].tick.0 > target.0);
        assert(now.skip(1 + (rest.len() - base.len())) =~= rest.skip(rest.len() - base.len()));
    }
}

/// A delta that records a slot gives the slot an oldest record among
/// the deltas that hold it.
proof fn lemma_oldest_exists<T>(popped: Seq<Delta<T>>, index: u32, k: int)
    requires
        0 <= k < popped.len(),
        popped[k].records(index),
    ensures
        oldest_record(popped, index).is_some(),
    decreases popped.len(),
{
    if !popped.last().records(index) {
        assert(popped.drop_last()[k] == popped[k]);
        lemma_oldest_exists(popped.drop_last(), index, k);
    }
}

impl<T> State<T> {
    /// What the bookkeeping of a first change keeps: the chain stays
    /// ordered, the delta of the current tick records the slot, and no other
    /// slot's record changes.
    proof fn lemma_record_first_change(self, index: u32)
        requires
            self.history_ok(),
        ensures
            ({
                let r = self.record_first_change(index, true);
                &&& r.slots == self.slots
                &&& r.changed == self.changed
                &&& r.tick == self.tick
                &&& r.head_is_current()
                &&& r.deltas[0].records(index)
                &&& forall|k: int|
                    0 <= k < r.deltas.len() - 1 ==> (#[trigger] r.deltas[k]).tick.0 > r.deltas[k
                        + 1].tick.0
                &&& forall|j: u32|
                    j != index && r.deltas[0].records(j) ==> self.head_is_current()
                        && self.deltas[0].records(j)
                &&& forall|j: u32|
                    self.head_is_current() && self.deltas[0].records(j) ==> r.deltas[0].records(j)
            }),
    {
        let r = self.record_first_change(index, true);
        if !self.changed.contains(index) {
            let w = self.with_head();
            if !self.head_is_current() {
                assert forall|k: int| 0 <= k < w.deltas.len() - 1 implies (
                #[trigger] w.deltas[k]).tick.0 > w.deltas[k + 1].tick.0 by {
                    if k > 0 {
                        assert(w.deltas[k] == self.deltas[k - 1]);
                        assert(w.deltas[k + 1] == self.deltas[k]);
                    } else {
                        assert(w.deltas[1] == self.deltas[0]);
                    }
                }
            }
            assert forall|k: int| 0 <= k < r.deltas.len() - 1 implies (#[trigger] r.deltas[k]).tick.0
                > r.deltas[k + 1].tick.0 by {
                assert(r.deltas[k].tick == w.deltas[k].tick);
                assert(r.deltas[k + 1].tick == w.deltas[k + 1].tick);
            }
        }
    }

    /// The bookkeeping of a first change leaves what a rollback to an
    /// earlier tick restores as it was, and the slot then has a record
    /// among the deltas that the rollback takes off.
    proof fn lemma_record_keeps_restored(self, index: u32, target: Tick)
        requires
            self.history_ok(),
            target.0 < self.tick.0,
        ensures
            ({
                let r = self.record_first_change(index, true);
                &&& forall|j: u32| r.restored(target, j) == self.restored(target, j)
                &&& oldest_record(r.popped(target), index).is_some()
            }),
    {
        let r = self.record_first_change(index, true);
        if self.changed.contains(index) {
            // Already recorded: nothing is added.
            assert(self.head_is_current() && self.deltas[0].records(index));
            lemma_popped_front(self.deltas, target);
            let older = self.deltas.skip(1).take(pop_count(self.deltas.skip(1), target) as int);
            lemma_oldest_front(self.deltas[0], older, index);
        } else {
            let w = self.with_head();
            let h = w.deltas[0];
            assert(h.tick == self.tick);
            if !self.head_is_current() {
                assert(w.deltas.skip(1) =~= self.deltas);
            }
            lemma_popped_front(w.deltas, target);
            let older = w.deltas.skip(1).take(pop_count(w.deltas.skip(1), target) as int);
            assert(w.popped(target) == seq![h] + older);
            // What the state restored before, in terms of the chain with
            // a delta for the current tick in front.
            assert forall|j: u32|
                oldest_record(self.popped(target), j) == oldest_record(seq![h] + older, j) by {
                if !self.head_is_current() {
                    assert(self.popped(target) =~= older);
                    lemma_oldest_front(h, older, j);
                    assert(!h.records(j));
                }
            }
            // The chain with the new record.
            let h2 = r.deltas[0];
            assert(r.deltas == w.deltas.update(0, h2));
            assert(h2.tick == h.tick);
            lemma_pop_count_ticks(r.deltas, w.deltas, target);
            assert(r.deltas.skip(1) =~= w.deltas.skip(1));
            lemma_popped_front(r.deltas, target);
            assert(r.popped(target) == seq![h2] + older);
            assert forall|j: u32| r.restored(target, j) == self.restored(target, j) by {
                lemma_oldest_front(h, older, j);
                lemma_oldest_front(h2, older, j);
                if j == index {
                    if self.slots.contains_key(index) {
                        assert(!h.records(index));
                    }
                }
            }
            lemma_oldest_front(h2, older, index);
        }
    }

    /// A logged `set` keeps the history sound.
    proof fn lemma_set_sound(self, index: u32, value: T)
        requires
            self.history_ok(),
        ensures
            self.set(index, value, true).history_ok(),
            self.set(index, value, true).tick == self.tick,
    {
        self.lemma_record_first_change(index);
    }

    /// A logged `remove` keeps the history sound.
    proof fn lemma_remove_sound(self, index: u32)
        requires
            self.history_ok(),
        ensures
            self.remove(index, true).history_ok(),
            self.remove(index, true).tick == self.tick,
    {
        if self.slots.contains_key(index) {
            self.lemma_record_first_change(index);
        }
    }

    /// A logged `set` during a tick leaves what a rollback to an earlier
    /// tick restores as it was.
    proof fn lemma_set_keeps(self, index: u32, value: T, target: Tick)
        requires
            self.history_ok(),
            target.0 < self.tick.0,
        ensures
            self.set(index, value, true).rollback(target).slots == self.rollback(target).slots,
    {
        self.lemma_record_first_change(index);
        self.lemma_record_keeps_restored(index, target);
        let r = self.record_first_change(index, true);
        let s2 = self.set(index, value, true);
        assert(s2.deltas == r.deltas);
        assert forall|j: u32| s2.restored(target, j) == self.restored(target, j) by {
            assert(r.restored(target, j) == self.restored(target, j));
        }
        assert(s2.rollback(target).slots =~= self.rollback(target).slots);
    }

    /// A logged `remove` during a tick leaves what a rollback to an
    /// earlier tick restores as it was.
    proof fn lemma_remove_keeps(self, index: u32, target: Tick)
        requires
            self.history_ok(),
            target.0 < self.tick.0,
        ensures
            self.remove(index, true).rollback(target).slots == self.rollback(target).slots,
    {
        if self.slots.contains_key(index) {
            self.lemma_record_first_change(index);
            self.lemma_record_keeps_restored(index, target);
            let r = self.record_first_change(index, true);
            let s2 = self.remove(index, true);
            assert(s2.deltas == r.deltas);
            assert forall|j: u32| s2.restored(target, j) == self.restored(target, j) by {
                assert(r.restored(target, j) == self.restored(target, j));
            }
            assert(s2.rollback(target).slots =~= self.rollback(target).slots);
        }
    }

    /// Moving on to a later tick keeps the history sound, and leaves what
    /// a rollback restores as it was.
    proof fn lemma_at_tick_keeps(self, tick: Tick, target: Tick)
        requires
            self.history_ok(),
            self.tick.0 <= tick.0,
        ensures
            self.at_tick(tick).history_ok(),
            self.at_tick(tick).tick == tick,
            self.at_tick(tick).slots == self.slots,
            self.at_tick(tick).deltas == self.deltas,
            self.at_tick(tick).rollback(target).slots == self.rollback(target).slots,
    {
        let s1 = self.at_tick(tick);
        assert forall|j: u32| s1.restored(target, j) == self.restored(target, j) by {}
        assert(s1.rollback(target).slots =~= self.rollback(target).slots);
    }

    /// A logged mutation during a tick that is not before the current one
    /// keeps the history sound.
    pub proof fn lemma_apply_sound(self, m: Mutation<T>)
        requires
            self.history_ok(),
            self.tick.0 <= m.tick.0,
        ensures
            self.apply(m).history_ok(),
            self.apply(m).tick == m.tick,
    {
        self.lemma_at_tick_keeps(m.tick, m.tick);
        let s1 = self.at_tick(m.tick);
        match m.op {
            Op::Store(index, value) => {
                s1.lemma_set_sound(index, value);
            },
            Op::Clear(index) => {
                s1.lemma_remove_sound(index);
            },
        }
    }

    /// A logged mutation during a tick that is not before the current one
    /// leaves what a rollback to a tick before the mutation's restores as it
    /// was.
    pub proof fn lemma_apply_keeps(self, m: Mutation<T>, target: Tick)
        requires
            self.history_ok(),
            self.tick.0 <= m.tick.0,
            target.0 < m.tick.0,
        ensures
            self.apply(m).rollback(target).slots == self.rollback(target).slots,
    {
        self.lemma_at_tick_keeps(m.tick, target);
        let s1 = self.at_tick(m.tick);
        match m.op {
            Op::Store(index, value) => {
                s1.lemma_set_keeps(index, value, target);
            },
            Op::Clear(index) => {
                s1.lemma_remove_keeps(index, target);
            },
        }
    }

    /// Replaying logged mutations whose ticks never go back keeps the
    /// history sound; the current tick then is that of the last mutation.
    pub proof fn lemma_replay_sound(self, mutations: Seq<Mutation<T>>)
        requires
            self.history_ok(),
            ticks_ascend(self.tick, mutations),
        ensures
            self.replay(mutations).history_ok(),
            self.replay(mutations).tick == (if mutations.len() == 0 {
                self.tick
            } else {
                mutations.last().tick
            }),
        decreases mutations.len(),
    {
        if mutations.len() > 0 {
            let shorter = mutations.drop_last();
            assert(ticks_ascend(self.tick, shorter)) by {
                assert forall|k: int| 0 <= k < shorter.len() - 1 implies (
                #[trigger] shorter[k]).tick.0 <= shorter[k + 1].tick.0 by {
                    assert(shorter[k] == mutations[k]);
                    assert(shorter[k + 1] == mutations[k + 1]);
                }
                if shorter.len() > 0 {
                    assert(shorter[0] == mutations[0]);
                }
            }
            self.lemma_replay_sound(shorter);
            if shorter.len() > 0 {
                assert(shorter.last() == mutations[mutations.len() - 2]);
            }
            self.replay(shorter).lemma_apply_sound(mutations.last());
        }
    }

    /// A logged mutation during a tick after `target` leaves the chain
    /// grown from what it has grown from.
    proof fn lemma_apply_grows(self, m: Mutation<T>, base: Seq<Delta<T>>, target: Tick)
        requires
            self.history_ok(),
            self.tick.0 <= m.tick.0,
            m.tick.0 > target.0,
            grown_from(self.deltas, base, target),
        ensures
            grown_from(self.apply(m).deltas, base, target),
    {
        let s1 = self.at_tick(m.tick);
        assert(s1.deltas == self.deltas);
        let index = match m.op {
            Op::Store(index, value) => index,
            Op::Clear(index) => index,
        };
        let s2 = s1.record_first_change(index, true);
        assert(self.apply(m).deltas == s1.deltas || self.apply(m).deltas == s2.deltas);
        let k = s1.deltas.len() - base.len();
        if s2.deltas != s1.deltas {
            let h = s1.with_head();
            if s1.head_is_current() {
                // The head belongs to the mutation's tick, so it has grown.
                assert(k > 0) by {
                    if k == 0 {
                        assert(s1.deltas =~= base);
                    }
                }
            } else {
                assert(h.deltas.skip(h.deltas.len() - base.len()) =~= s1.deltas.skip(k));
                assert forall|j: int| 0 <= j < h.deltas.len() - base.len() implies (
                #[trigger] h.deltas[j]).tick.0 > target.0 by {
                    if j > 0 {
                        assert(h.deltas[j] == s1.deltas[j - 1]);
                    }
                }
            }
            assert(grown_from(h.deltas, base, target));
            assert(h.deltas.len() - base.len() > 0);
            assert(s2.deltas.len() == h.deltas.len());
            assert(s2.deltas[0].tick == h.deltas[0].tick);
            assert(s2.deltas.skip(s2.deltas.len() - base.len()) =~= h.deltas.skip(
                h.deltas.len() - base.len(),
            ));
            assert forall|j: int| 0 <= j < s2.deltas.len() - base.len() implies (
            #[trigger] s2.deltas[j]).tick.0 > target.0 by {
                if j > 0 {
                    assert(s2.deltas[j] == h.deltas[j]);
                }
            }
        }
    }

    /// Replaying logged mutations during ticks after `target` leaves the
    /// chain grown from what it was.
    proof fn lemma_replay_grows(self, mutations: Seq<Mutation<T>>, target: Tick)
        requires
            self.history_ok(),
            self.tick.0 <= target.0,
            ticks_ascend(self.tick, mutations),
            forall|k: int| 0 <= k < mutations.len() ==> (#[trigger] mutations[k]).tick.0 > target.0,
        ensures
            grown_from(self.replay(mutations).deltas, self.deltas, target),
        decreases mutations.len(),
    {
        if mutations.len() == 0 {
            assert(self.deltas.skip(0) =~= self.deltas);
        } else {
            let shorter = mutations.drop_last();
            assert(ticks_ascend(self.tick, shorter)) by {
                assert forall|k: int| 0 <= k < shorter.len() - 1 implies (
                #[trigger] shorter[k]).tick.0 <= shorter[k + 1].tick.0 by {
                    assert(shorter[k] == mutations[k]);
                    assert(shorter[k + 1] == mutations[k + 1]);
                }
                if shorter.len() > 0 {
                    assert(shorter[0] == mutations[0]);
                }
            }
            assert forall|k: int| 0 <= k < shorter.len() implies (#[trigger] shorter[k]).tick.0
                > target.0 by {
                assert(shorter[k] == mutations[k]);
            }
            if shorter.len() > 0 {
                assert(shorter.last() == mutations[mutations.len() - 2]);
                assert(mutations[mutations.len() - 2].tick.0 <= mutations[mutations.len()
                    - 1].tick.0);
            }
            self.lemma_replay_grows(shorter, target);
            self.lemma_replay_sound(shorter);
            self.replay(shorter).lemma_apply_grows(mutations.last(), self.deltas, target);
        }
    }

    /// **Round-trip rollback, the bookkeeping.** Under the premises of the
    /// round trip, the rollback leaves the number of occupied slots and the
    /// chain of deltas that the storage had before the mutations: every
    /// delta of a later tick is gone, every other delta is still there. No
    /// slot that the mutations touched is left marked as changed.
    pub proof fn lemma_round_trip_chain(self, mutations: Seq<Mutation<T>>, target: Tick)
        requires
            self.history_ok(),
            self.tick.0 <= target.0,
            ticks_ascend(self.tick, mutations),
            forall|k: int| 0 <= k < mutations.len() ==> (#[trigger] mutations[k]).tick.0 > target.0,
            mutations.len() > 0 ==> mutations.last().tick.0 - target.0 < 0x8000_0000,
        ensures
            self.replay(mutations).rollback(target).len() == self.len(),
            self.replay(mutations).rollback(target).deltas == self.deltas,
            self.replay(mutations).rollback(target).changed == (if mutations.len() == 0 {
                self.changed
            } else {
                Set::<u32>::empty()
            }),
    {
        let end = self.replay(mutations);
        let rolled = end.rollback(target);
        self.lemma_round_trip(mutations, target);
        self.lemma_replay_grows(mutations, target);
        lemma_pop_grown(end.deltas, self.deltas, target);
        assert(rolled.deltas =~= self.deltas);
        if mutations.len() == 0 {
            assert(end.popped(target) =~= Seq::<Delta<T>>::empty());
            assert(rolled.changed =~= self.changed);
        } else {
            self.lemma_replay_sound(mutations);
            assert forall|i: u32| !rolled.changed.contains(i) by {
                if end.changed.contains(i) {
                    assert(end.head_is_current() && end.deltas[0].records(i));
                    assert(end.deltas[0].tick.0 > target.0);
                    assert(pop_count(end.deltas, target) > 0);
                    assert(end.popped(target)[0] == end.deltas[0]);
                    lemma_oldest_exists(end.popped(target), i, 0);
                }
            }
            assert(rolled.changed =~= Set::<u32>::empty());
        }
    }

    /// **Round-trip rollback.** Let logged mutations be made on a storage
    /// with a sound history, during ticks that never go back and are all
    /// after `target`, which is not before the storage's tick. A rollback
    /// to `target` then is not refused, and it leaves in every slot what the
    /// slot held before the mutations. (Ticks are compared in a window of
    /// 2^31: the last mutation's tick is less than that after `target`.)
    pub proof fn lemma_round_trip(self, mutations: Seq<Mutation<T>>, target: Tick)
        requires
            self.history_ok(),
            self.tick.0 <= target.0,
            ticks_ascend(self.tick, mutations),
            forall|k: int| 0 <= k < mutations.len() ==> (#[trigger] mutations[k]).tick.0 > target.0,
            mutations.len() > 0 ==> mutations.last().tick.0 - target.0 < 0x8000_0000,
        ensures
            !self.replay(mutations).rollback_refused(target),
            self.replay(mutations).rollback(target).slots == self.slots,
            self.replay(mutations).rollback(target).tick == target,
        decreases mutations.len(),
    {
        if mutations.len() == 0 {
            lemma_pop_count_zero(self.deltas, target);
            assert(self.popped(target) =~= Seq::<Delta<T>>::empty());
            assert(self.rollback(target).slots =~= self.slots);
        } else {
            let shorter = mutations.drop_last();
            assert(ticks_ascend(self.tick, shorter)) by {
                assert forall|k: int| 0 <= k < shorter.len() - 1 implies (
                #[trigger] shorter[k]).tick.0 <= shorter[k + 1].tick.0 by {
                    assert(shorter[k] == mutations[k]);
                    assert(shorter[k + 1] == mutations[k + 1]);
                }
                if shorter.len() > 0 {
                    assert(shorter[0] == mutations[0]);
                }
            }
            assert forall|k: int| 0 <= k < shorter.len() implies (#[trigger] shorter[k]).tick.0
                > target.0 by {
                assert(shorter[k] == mutations[k]);
            }
            if shorter.len() > 0 {
                assert(shorter.last() == mutations[mutations.len() - 2]);
                assert(mutations[mutations.len() - 2].tick.0 <= mutations[mutations.len()
                    - 1].tick.0);
            }
            self.lemma_round_trip(shorter, target);
            self.lemma_replay_sound(shorter);
            let before = self.replay(shorter);
            before.lemma_apply_keeps(mutations.last(), target);
            before.lemma_apply_sound(mutations.last());
            let after = self.replay(mutations);
            assert(after.tick == mutations.last().tick);
            assert(!target.spec_is_after(after.tick));
        }
    }

    /// **Partial rollback.** Let logged mutations be made on a storage
    /// with a sound history, during ticks that never go back: first
    /// `earlier`, during ticks at or before `target`, then `later`, during
    /// ticks after it. A rollback to `target` then leaves in every slot what
    /// replaying `earlier` alone leaves there, and the chain of deltas that
    /// replaying `earlier` alone leaves: the deltas of later ticks are gone.
    pub proof fn lemma_partial_rollback(
        self,
        earlier: Seq<Mutation<T>>,
        later: Seq<Mutation<T>>,
        target: Tick,
    )
        requires
            self.history_ok(),
            self.tick.0 <= target.0,
            ticks_ascend(self.tick, earlier + later),
            forall|k: int| 0 <= k < earlier.len() ==> (#[trigger] earlier[k]).tick.0 <= target.0,
            forall|k: int| 0 <= k < later.len() ==> (#[trigger] later[k]).tick.0 > target.0,
            later.len() > 0 ==> later.last().tick.0 - target.0 < 0x8000_0000,
        ensures
            !self.replay(earlier + later).rollback_refused(target),
            self.replay(earlier + later).rollback(target).slots == self.replay(earlier).slots,
            self.replay(earlier + later).rollback(target).len() == self.replay(earlier).len(),
            self.replay(earlier + later).rollback(target).deltas == self.replay(earlier).deltas,
            self.replay(earlier + later).rollback(target).tick == target,
    {
        let all = earlier + later;
        assert(ticks_ascend(self.tick, earlier)) by {
            assert forall|k: int| 0 <= k < earlier.len() - 1 implies (
            #[trigger] earlier[k]).tick.0 <= earlier[k + 1].tick.0 by {
                assert(earlier[k] == all[k]);
                assert(earlier[k + 1] == all[k + 1]);
            }
            if earlier.len() > 0 {
                assert(earlier[0] == all[0]);
            }
        }
        self.lemma_replay_sound(earlier);
        let middle = self.replay(earlier);
        assert(middle.tick.0 <= target.0);
        assert(ticks_ascend(middle.tick, later)) by {
            assert forall|k: int| 0 <= k < later.len() - 1 implies (#[trigger] later[k]).tick.0
                <= later[k + 1].tick.0 by {
                assert(later[k] == all[earlier.len() + k]);
                assert(later[k + 1] == all[earlier.len() + k + 1]);
            }
            if later.len() > 0 {
                assert(later[0] == all[earlier.len() as int]);
                if earlier.len() > 0 {
                    assert(earlier.last() == all[earlier.len() - 1]);
                }
            }
        }
        self.lemma_replay_append(earlier, later);
        middle.lemma_round_trip(later, target);
        middle.lemma_round_trip_chain(later, target);
    }

    /// Replaying two runs of mutations one after the other is replaying
    /// them as one run.
    pub proof fn lemma_replay_append(self, first: Seq<Mutation<T>>, second: Seq<Mutation<T>>)
        ensures
            self.replay(first + second) == self.replay(first).replay(second),
        decreases second.len(),
    {
        if second.len() == 0 {
            assert(first + second =~= first);
        } else {
            assert((first + second).drop_last() =~= first + second.drop_last());
            assert((first + second).last() == second.last());
            self.lemma_replay_append(first, second.drop_last());
        }
    }
}

} // verus!
