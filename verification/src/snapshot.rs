//! The snapshot of one tick: a tree of deltas that mirrors the live
//! hierarchy, and the chain of the snapshots of a storage.

use vstd::prelude::*;
use crate::bits::{bit, with_bit, lemma_bit_single};
use crate::block::RollbackBlock;
use crate::component::Component;
use crate::hierarchy::{inner_index, middle_index, root_index, CAPACITY};
use crate::history::{oldest_record, Delta};
use crate::restore::deltas_of;
use crate::tick::Tick;

verus! {

/// A leaf of a snapshot.
pub type InnerDelta<T> = RollbackBlock<T>;

/// An interior node of a snapshot.
pub type MiddleDelta<T> = RollbackBlock<Box<RollbackBlock<T>>>;

/// The root of a snapshot.
pub type RootDelta<T> = RollbackBlock<Box<RollbackBlock<Box<RollbackBlock<T>>>>>;

/// The delta of one tick: for every slot that changed during the tick, what
/// the slot held when the tick began.
pub struct RollbackStorage<T> {
    pub root: RootDelta<T>,
    pub tick: Tick,
    pub prev: Option<Box<RollbackStorage<T>>>,
}

/// An interior node of a snapshot is sound: the child deltas agree with
/// the updated mask, every child is sound, and nothing is marked as added
/// at this level.
pub open spec fn middle_delta_ok<T>(middle: MiddleDelta<T>) -> bool {
    &&& middle.wf()
    &&& middle.added_mask == 0
    &&& forall|mi: u32| #[trigger]
        bit(middle.updated_mask, mi) ==> middle.slot(mi).unwrap().wf()
}

/// The root of a snapshot is sound.
pub open spec fn root_delta_ok<T>(
    root: RootDelta<T>,
) -> bool {
    &&& root.wf()
    &&& root.added_mask == 0
    &&& forall|ri: u32| #[trigger]
        bit(root.updated_mask, ri) ==> middle_delta_ok(*root.slot(ri).unwrap())
}

/// The pre-image saved below an interior snapshot node for the slot at `mi`, `ii`.
pub open spec fn middle_saved<T>(middle: MiddleDelta<T>, mi: u32, ii: u32)
    -> Option<T> {
    match middle.slot(mi) {
        Some(inner) => inner.slot(ii),
        None => None,
    }
}

/// Whether the slot at `mi`, `ii` is marked as added below an interior snapshot node.
pub open spec fn middle_added<T>(middle: MiddleDelta<T>, mi: u32, ii: u32)
    -> bool {
    match middle.slot(mi) {
        Some(inner) => bit(inner.added_mask, ii),
        None => false,
    }
}

/// Save a clone of `prev_value` as the pre-image of slot `ii` of a leaf delta.
fn inner_mark_updated<T: Component>(inner: &mut RollbackBlock<T>, ii: u32, prev_value: &T)
    requires
        old(inner).wf(),
        ii < 128,
    ensures
        final(inner).wf(),
        final(inner).slot(ii) == Some(*prev_value),
        forall|i: u32| i != ii ==> final(inner).slot(i) == old(inner).slot(i),
        final(inner).added_mask == old(inner).added_mask,
{
    let saved = prev_value.clone();
    proof {
        T::clone_is_faithful(*prev_value, saved);
    }
    inner.updated_mask = with_bit(inner.updated_mask, ii);
    inner.data[ii as usize] = Some(saved);
}

/// Save a clone of `prev_value` as the pre-image of the slot at `mi`, `ii` below an
/// interior snapshot node, creating the leaf delta where it is missing.
fn middle_mark_updated<T: Component>(
    middle: &mut MiddleDelta<T>,
    mi: u32,
    ii: u32,
    prev_value: &T,
)
    requires
        middle_delta_ok(*old(middle)),
        mi < 128,
        ii < 128,
    ensures
        middle_delta_ok(*final(middle)),
        middle_saved(*final(middle), mi, ii) == Some(*prev_value),
        forall|m: u32, i: u32|
            !(m == mi && i == ii) ==> middle_saved(*final(middle), m, i) == middle_saved(
                *old(middle),
                m,
                i,
            ),
        forall|m: u32, i: u32|
            middle_added(*final(middle), m, i) == middle_added(*old(middle), m, i),
{
    proof {
        lemma_bit_single(0);
    }
    middle.ensure_child_exists(mi);
    let ghost before = *middle;
    match &mut middle.data[mi as usize] {
        None => {},
        Some(inner) => {
            inner_mark_updated(inner, ii, prev_value);
        },
    }
    proof {
        assert(forall|m: u32| m != mi ==> middle.slot(m) == before.slot(m));
        assert forall|m: u32| #[trigger] bit(middle.updated_mask, m) implies middle.slot(
            m,
        ).unwrap().wf() by {
            if m != mi {
                assert(bit(before.updated_mask, m));
            }
        }
    }
}

/// Mark the slot at `mi`, `ii` below an interior snapshot node as absent
/// before the tick, creating the leaf delta where it is missing.
fn middle_mark_added<T>(middle: &mut MiddleDelta<T>, mi: u32, ii: u32)
    requires
        middle_delta_ok(*old(middle)),
        mi < 128,
        ii < 128,
    ensures
        middle_delta_ok(*final(middle)),
        middle_added(*final(middle), mi, ii),
        forall|m: u32, i: u32|
            !(m == mi && i == ii) ==> middle_added(*final(middle), m, i) == middle_added(
                *old(middle),
                m,
                i,
            ),
        forall|m: u32, i: u32|
            middle_saved(*final(middle), m, i) == middle_saved(*old(middle), m, i),
{
    proof {
        lemma_bit_single(0);
    }
    middle.ensure_child_exists(mi);
    let ghost before = *middle;
    match &mut middle.data[mi as usize] {
        None => {},
        Some(inner) => {
            inner.added_mask = with_bit(inner.added_mask, ii);
        },
    }
    proof {
        assert(forall|m: u32| m != mi ==> middle.slot(m) == before.slot(m));
        assert forall|m: u32, i: u32|
            middle_saved(*middle, m, i) == middle_saved(*old(middle), m, i) by {
            if m == mi {
                assert(middle.slot(mi).unwrap().slot(i) == before.slot(mi).unwrap().slot(i));
                if !bit(old(middle).updated_mask, mi) {
                    assert(!bit(before.slot(mi).unwrap().updated_mask, i));
                }
            }
        }
        assert forall|m: u32| #[trigger] bit(middle.updated_mask, m) implies middle.slot(
            m,
        ).unwrap().wf() by {
            if m != mi {
                assert(bit(before.updated_mask, m));
            }
        }
    }
}

impl<T> RollbackStorage<T> {
    /// The tree of this snapshot is sound: at every node the saved slots
    /// agree with the updated mask, and interior nodes mark nothing as added.
    pub open spec fn tree_wf(&self) -> bool {
        root_delta_ok(self.root)
    }

    /// The pre-image that this snapshot saved for the slot, if it saved one.
    pub open spec fn saved_at(&self, ri: u32, mi: u32, ii: u32) -> Option<T> {
        match self.root.slot(ri) {
            Some(middle) => middle_saved(*middle, mi, ii),
            None => None,
        }
    }

    /// Whether this snapshot marks the slot as absent before the tick's first change.
    pub open spec fn added_at(&self, ri: u32, mi: u32, ii: u32) -> bool {
        match self.root.slot(ri) {
            Some(middle) => middle_added(*middle, mi, ii),
            None => false,
        }
    }

    /// The number of snapshots in the chain that starts here.
    pub open spec fn depth(&self) -> nat
        decreases self,
    {
        match self.prev {
            Some(prev) => 1 + prev.depth(),
            None => 1,
        }
    }

    /// Every snapshot of the chain that starts here has a sound tree.
    pub open spec fn chain_wf(&self) -> bool
        decreases self,
    {
        &&& self.tree_wf()
        &&& match self.prev {
            Some(prev) => prev.chain_wf(),
            None => true,
        }
    }
}

impl<T: Component> RollbackStorage<T> {
    /// An empty snapshot for `tick`, in front of the chain `prev`.
    pub fn new(prev: Option<Box<Self>>, tick: Tick) -> (r: Box<Self>)
        ensures
            r.tick == tick,
            r.prev == prev,
            r.root.updated_mask == 0,
            r.root.added_mask == 0,
            r.tree_wf(),
            forall|ri: u32, mi: u32, ii: u32| r.saved_at(ri, mi, ii).is_none(),
            forall|ri: u32, mi: u32, ii: u32| !r.added_at(ri, mi, ii),
    {
        proof {
            lemma_bit_single(0);
        }
        Box::new(RollbackStorage { tick, root: RollbackBlock::new(), prev })
    }

    /// Record that the slot held `prev_value` before this tick's first change to it.
    pub fn mark_updated(&mut self, ri: u32, mi: u32, ii: u32, prev_value: &T)
        requires
            old(self).tree_wf(),
            ri < 128,
            mi < 128,
            ii < 128,
        ensures
            final(self).tree_wf(),
            final(self).tick == old(self).tick,
            final(self).prev == old(self).prev,
            final(self).saved_at(ri, mi, ii) == Some(*prev_value),
            forall|r: u32, m: u32, i: u32|
                !(r == ri && m == mi && i == ii) ==> final(self).saved_at(r, m, i) == old(
                    self,
                ).saved_at(r, m, i),
            forall|r: u32, m: u32, i: u32|
                final(self).added_at(r, m, i) == old(self).added_at(r, m, i),
    {
        proof {
            lemma_bit_single(0);
        }
        let root = &mut self.root;
        root.ensure_child_exists(ri);
        let ghost before = *root;
        match &mut root.data[ri as usize] {
            None => {},
            Some(middle) => {
                middle_mark_updated(middle, mi, ii, prev_value);
            },
        }
        proof {
            assert(forall|r: u32| r != ri ==> root.slot(r) == before.slot(r));
            assert forall|r: u32| #[trigger] bit(root.updated_mask, r) implies middle_delta_ok(
                *root.slot(r).unwrap(),
            ) by {
                if r != ri {
                    assert(bit(before.updated_mask, r));
                }
            }
        }
    }

    /// Record that the slot was absent before this tick's first change to it.
    pub fn mark_added(&mut self, ri: u32, mi: u32, ii: u32)
        requires
            old(self).tree_wf(),
            ri < 128,
            mi < 128,
            ii < 128,
        ensures
            final(self).tree_wf(),
            final(self).tick == old(self).tick,
            final(self).prev == old(self).prev,
            final(self).added_at(ri, mi, ii),
            forall|r: u32, m: u32, i: u32|
                !(r == ri && m == mi && i == ii) ==> final(self).added_at(r, m, i) == old(
                    self,
                ).added_at(r, m, i),
            forall|r: u32, m: u32, i: u32|
                final(self).saved_at(r, m, i) == old(self).saved_at(r, m, i),
    {
        proof {
            lemma_bit_single(0);
        }
        let root = &mut self.root;
        // Interior nodes track the existence of child deltas in
        // `updated_mask`; `added_mask` is only used at the leaves.
        root.ensure_child_exists(ri);
        let ghost before = *root;
        match &mut root.data[ri as usize] {
            None => {},
            Some(middle) => {
                middle_mark_added(middle, mi, ii);
            },
        }
        proof {
            assert(forall|r: u32| r != ri ==> root.slot(r) == before.slot(r));
            assert forall|r: u32| #[trigger] bit(root.updated_mask, r) implies middle_delta_ok(
                *root.slot(r).unwrap(),
            ) by {
                if r != ri {
                    assert(bit(before.updated_mask, r));
                }
            }
        }
    }
}

impl<T> RollbackStorage<T> {
    /// The pre-image that this snapshot saved for slot `index`, if it saved one.
    pub open spec fn saved(&self, index: u32) -> Option<T> {
        if index < CAPACITY {
            self.saved_at(root_index(index), middle_index(index), inner_index(index))
        } else {
            None
        }
    }

    /// Whether this snapshot marks slot `index` as absent before the tick's first change.
    pub open spec fn added(&self, index: u32) -> bool {
        index < CAPACITY && self.added_at(
            root_index(index),
            middle_index(index),
            inner_index(index),
        )
    }

    /// This snapshot as a delta.
    pub open spec fn delta(&self) -> Delta<T> {
        Delta {
            tick: self.tick,
            saved: Map::new(|i: u32| self.saved(i).is_some(), |i: u32| self.saved(i).unwrap()),
            added: Set::new(|i: u32| self.added(i)),
        }
    }

    /// The chain that starts here as deltas, most recent first.
    pub open spec fn deltas(&self) -> Seq<Delta<T>>
        decreases self,
    {
        seq![self.delta()] + match self.prev {
            Some(prev) => prev.deltas(),
            None => Seq::empty(),
        }
    }
}

/// The delta of a snapshot depends only on its tree and its tick.
pub proof fn lemma_delta_of_tree<T>(a: RollbackStorage<T>, b: RollbackStorage<T>)
    requires
        a.root == b.root,
        a.tick == b.tick,
    ensures
        a.delta() == b.delta(),
        a.tree_wf() == b.tree_wf(),
{
    assert(a.delta().saved =~= b.delta().saved);
    assert(a.delta().added =~= b.delta().added);
}

/// No snapshot records a slot whose index is out of range.
pub proof fn lemma_no_record_out_of_range<T>(snaps: Seq<Box<RollbackStorage<T>>>, index: u32)
    requires
        index >= CAPACITY,
    ensures
        oldest_record(deltas_of(snaps), index).is_none(),
    decreases snaps.len(),
{
    if snaps.len() > 0 {
        assert(deltas_of(snaps).drop_last() =~= deltas_of(snaps.drop_last()));
        lemma_no_record_out_of_range(snaps.drop_last(), index);
    }
}

/// The deltas of a snapshot chain, most recent first.
pub open spec fn chain_deltas<T>(head: Option<Box<RollbackStorage<T>>>) -> Seq<Delta<T>> {
    match head {
        Some(h) => h.deltas(),
        None => Seq::empty(),
    }
}

/// Every snapshot of a chain has a sound tree.
pub open spec fn chain_ok<T>(head: Option<Box<RollbackStorage<T>>>) -> bool {
    match head {
        Some(h) => h.chain_wf(),
        None => true,
    }
}

} // verus!
