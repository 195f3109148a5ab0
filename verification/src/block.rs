//! The 128-slot nodes that the storage hierarchy and its snapshots are built from.

use vstd::prelude::*;
use crate::bits::{bit, subset, has_bit, with_bit, without_bit, lowest_run, without_range,
    lemma_bit_single};

verus! {

/// A node of the live hierarchy: three masks and 128 slots. A slot holds a
/// component instance at a leaf and a child block at an interior node.
pub struct Block<T> {
    /// Bit `i` is set iff slot `i` holds a value (leaf) or a child (interior).
    pub presence_mask: u128,
    /// At a leaf, bit `i` is set iff slot `i` is occupied; at an interior
    /// node, iff the child at `i` is completely full.
    pub absence_mask: u128,
    /// Bit `i` is set iff slot `i`, or a slot below it, was mutated since
    /// the changes were last cleared.
    pub changed_mask: u128,
    /// The slots; slot `i` is `Some` iff bit `i` of `presence_mask` is set.
    pub data: Vec<Option<T>>,
}

/// A node of a snapshot: the delta of one block within one tick.
pub struct RollbackBlock<T> {
    /// Bit `i` is set iff slot `i` held a value before the tick's first
    /// change to it (leaf), or a child delta exists at `i` (interior).
    pub updated_mask: u128,
    /// Bit `i` is set iff slot `i` was absent before the tick's first change to it.
    pub added_mask: u128,
    /// The saved pre-images; slot `i` is `Some` iff bit `i` of `updated_mask` is set.
    pub data: Vec<Option<T>>,
}

/// A vector of 128 empty slots.
pub fn empty_slots<T>() -> (slots: Vec<Option<T>>)
    ensures
        slots@.len() == 128,
        forall|j: int| 0 <= j < 128 ==> slots@[j].is_none(),
{
    let mut slots: Vec<Option<T>> = Vec::with_capacity(128);
    let mut i: u32 = 0;
    while i < 128
        invariant
            i <= 128,
            slots@.len() == i,
            forall|j: int| 0 <= j < i ==> slots@[j].is_none(),
        decreases 128 - i,
    {
        slots.push(None);
        i += 1;
    }
    slots
}

impl<T> Block<T> {
    /// The slots agree with the presence mask: 128 slots, slot `i` filled
    /// iff bit `i` is set.
    pub open spec fn slots_wf(&self) -> bool {
        &&& self.data@.len() == 128
        &&& forall|j: u32|
            #![trigger bit(self.presence_mask, j)]
            #![trigger self.slot(j)]
            bit(self.presence_mask, j) <==> self.slot(j).is_some()
    }

    /// The block's own invariants: slots agree with presence, and both the
    /// absence mask and the changed mask lie within the presence mask.
    pub open spec fn wf(&self) -> bool {
        &&& self.slots_wf()
        &&& subset(self.absence_mask, self.presence_mask)
        &&& subset(self.changed_mask, self.presence_mask)
    }

    /// What slot `i` holds, `None` when it is empty or out of range.
    pub open spec fn slot(&self, i: u32) -> Option<T> {
        if i < 128 && self.data@.len() == 128 {
            self.data@[i as int]
        } else {
            None
        }
    }

    /// An empty block.
    pub fn new() -> (b: Self)
        ensures
            b.wf(),
            b.presence_mask == 0,
            b.absence_mask == 0,
            b.changed_mask == 0,
            forall|j: u32| b.slot(j).is_none(),
    {
        proof {
            lemma_bit_single(0);
        }
        Block { presence_mask: 0, absence_mask: 0, changed_mask: 0, data: empty_slots() }
    }

    /// The value in slot `index`, if the slot is filled.
    pub fn get(&self, index: u32) -> (r: Option<&T>)
        requires
            self.slots_wf(),
        ensures
            r == match self.slot(index) {
                Some(v) => Some(&v),
                None => None,
            },
    {
        if index < 128 {
            self.data[index as usize].as_ref()
        } else {
            None
        }
    }

    /// Replace this block's content by what `snapshot` holds: its
    /// `updated_mask` becomes the presence mask, its `added_mask` the
    /// absence mask, the changed mask is reset, and every saved value is
    /// cloned into its slot.
    pub fn restore_from(&mut self, snapshot: &RollbackBlock<T>) where T: Clone
        requires
            old(self).slots_wf(),
            snapshot.wf(),
        ensures
            final(self).slots_wf(),
            final(self).presence_mask == snapshot.updated_mask,
            final(self).absence_mask == snapshot.added_mask,
            final(self).changed_mask == 0,
            forall|j: u32|
                bit(snapshot.updated_mask, j) ==> cloned(
                    snapshot.slot(j).unwrap(),
                    (#[trigger] final(self).slot(j)).unwrap(),
                ),
    {
        // First, drop any existing data that is present.
        let mut m = self.presence_mask;
        let mut low: u32 = 0;
        while m != 0
            invariant
                low <= 128,
                self.data@.len() == 128,
                forall|j: u32| j < low ==> !bit(m, j),
                forall|j: u32| j < 128 && !bit(m, j) ==> (#[trigger] self.data@[j as int]).is_none(),
            decreases 128 - low,
        {
            let (start, run) = lowest_run(m);
            let mut i: u32 = 0;
            while i < run
                invariant
                    i <= run,
                    start + run <= 128,
                    self.data@.len() == 128,
                    forall|j: u32|
                        j < 128 && (!bit(m, j) || (start <= j && j < start + i)) ==> (
                        #[trigger] self.data@[j as int]).is_none(),
                decreases run - i,
            {
                self.data[(start + i) as usize] = None;
                i += 1;
            }
            m = without_range(m, start, run);
            low = start + run;
        }
        proof {
            lemma_bit_single(0);
        }
        // Restore masks from the snapshot.
        self.presence_mask = snapshot.updated_mask;
        self.absence_mask = snapshot.added_mask;
        self.changed_mask = 0;
        // Copy the sparse data from the snapshot.
        let mut mask = snapshot.updated_mask;
        let mut low: u32 = 0;
        while mask != 0
            invariant
                low <= 128,
                snapshot.wf(),
                self.data@.len() == 128,
                self.presence_mask == snapshot.updated_mask,
                self.absence_mask == snapshot.added_mask,
                self.changed_mask == 0,
                forall|j: u32| j < low ==> !bit(mask, j),
                forall|j: u32| bit(mask, j) ==> bit(snapshot.updated_mask, j),
                forall|j: u32|
                    j < 128 && (bit(mask, j) || !bit(snapshot.updated_mask, j)) ==> (
                    #[trigger] self.data@[j as int]).is_none(),
                forall|j: u32|
                    bit(snapshot.updated_mask, j) && !bit(mask, j) ==> (
                    #[trigger] self.data@[j as int]).is_some() && cloned(
                        snapshot.slot(j).unwrap(),
                        self.slot(j).unwrap(),
                    ),
            decreases 128 - low,
        {
            let (start, run) = lowest_run(mask);
            let mut i: u32 = 0;
            while i < run
                invariant
                    i <= run,
                    start + run <= 128,
                    snapshot.wf(),
                    self.data@.len() == 128,
                    self.presence_mask == snapshot.updated_mask,
                    self.absence_mask == snapshot.added_mask,
                    self.changed_mask == 0,
                    forall|j: u32| start <= j && j < start + run ==> bit(mask, j),
                    forall|j: u32| bit(mask, j) ==> bit(snapshot.updated_mask, j),
                    forall|j: u32|
                        j < 128 && (bit(mask, j) || !bit(snapshot.updated_mask, j)) && !(start <= j
                            && j < start + i) ==> (#[trigger] self.data@[j as int]).is_none(),
                    forall|j: u32|
                        bit(snapshot.updated_mask, j) && (!bit(mask, j) || (start <= j && j < start
                            + i)) ==> (#[trigger] self.data@[j as int]).is_some() && cloned(
                            snapshot.slot(j).unwrap(),
                            self.slot(j).unwrap(),
                        ),
                decreases run - i,
            {
                let idx = (start + i) as usize;
                assert(bit(mask, (start + i) as u32));
                assert(snapshot.slot((start + i) as u32).is_some());
                if let Some(v) = &snapshot.data[idx] {
                    self.data[idx] = Some(v.clone());
                }
                i += 1;
            }
            let ghost prev = mask;
            mask = without_range(mask, start, run);
            assert forall|j: u32|
                j < 128 && (bit(mask, j) || !bit(snapshot.updated_mask, j)) implies (
            #[trigger] self.data@[j as int]).is_none() by {
                assert(bit(mask, j) == (bit(prev, j) && !(start <= j && j < start + run)));
                if start <= j && j < start + run {
                    assert(bit(prev, j));
                    assert(bit(snapshot.updated_mask, j));
                }
            }
            low = start + run;
        }
        proof {
            lemma_bit_single(0);
        }
    }

    /// A snapshot of the whole block: the presence mask as `updated_mask`,
    /// the absence mask as `added_mask`, and a clone of every present value.
    pub fn snapshot(&self) -> (r: RollbackBlock<T>) where T: Clone
        requires
            self.slots_wf(),
        ensures
            r.wf(),
            r.updated_mask == self.presence_mask,
            r.added_mask == self.absence_mask,
            forall|j: u32|
                bit(self.presence_mask, j) ==> cloned(
                    self.slot(j).unwrap(),
                    (#[trigger] r.slot(j)).unwrap(),
                ),
    {
        let mut data: Vec<Option<T>> = empty_slots();
        let mut mask = self.presence_mask;
        let mut low: u32 = 0;
        while mask != 0
            invariant
                low <= 128,
                self.slots_wf(),
                data@.len() == 128,
                forall|j: u32| j < low ==> !bit(mask, j),
                forall|j: u32| bit(mask, j) ==> bit(self.presence_mask, j),
                forall|j: u32|
                    j < 128 && (bit(mask, j) || !bit(self.presence_mask, j)) ==> (
                    #[trigger] data@[j as int]).is_none(),
                forall|j: u32|
                    bit(self.presence_mask, j) && !bit(mask, j) ==> (
                    #[trigger] data@[j as int]).is_some() && cloned(
                        self.slot(j).unwrap(),
                        data@[j as int].unwrap(),
                    ),
            decreases 128 - low,
        {
            let (start, run) = lowest_run(mask);
            let mut i: u32 = 0;
            while i < run
                invariant
                    i <= run,
                    start + run <= 128,
                    self.slots_wf(),
                    data@.len() == 128,
                    forall|j: u32| start <= j && j < start + run ==> bit(mask, j),
                    forall|j: u32| bit(mask, j) ==> bit(self.presence_mask, j),
                    forall|j: u32|
                        j < 128 && (bit(mask, j) || !bit(self.presence_mask, j)) && !(start <= j
                            && j < start + i) ==> (#[trigger] data@[j as int]).is_none(),
                    forall|j: u32|
                        bit(self.presence_mask, j) && (!bit(mask, j) || (start <= j && j < start
                            + i)) ==> (#[trigger] data@[j as int]).is_some() && cloned(
                            self.slot(j).unwrap(),
                            data@[j as int].unwrap(),
                        ),
                decreases run - i,
            {
                let idx = (start + i) as usize;
                assert(bit(mask, (start + i) as u32));
                assert(self.slot((start + i) as u32).is_some());
                if let Some(v) = &self.data[idx] {
                    data[idx] = Some(v.clone());
                }
                i += 1;
            }
            let ghost prev = mask;
            mask = without_range(mask, start, run);
            assert forall|j: u32|
                j < 128 && (bit(mask, j) || !bit(self.presence_mask, j)) implies (
            #[trigger] data@[j as int]).is_none() by {
                assert(bit(mask, j) == (bit(prev, j) && !(start <= j && j < start + run)));
                if start <= j && j < start + run {
                    assert(bit(prev, j));
                    assert(bit(self.presence_mask, j));
                }
            }
            low = start + run;
        }
        proof {
            lemma_bit_single(0);
        }
        RollbackBlock { updated_mask: self.presence_mask, added_mask: self.absence_mask, data }
    }
}

impl<T> RollbackBlock<T> {
    /// The saved values agree with the updated mask: 128 slots, slot `i`
    /// filled iff bit `i` is set.
    pub open spec fn wf(&self) -> bool {
        &&& self.data@.len() == 128
        &&& forall|j: u32|
            #![trigger bit(self.updated_mask, j)]
            #![trigger self.slot(j)]
            bit(self.updated_mask, j) <==> self.slot(j).is_some()
    }

    /// The pre-image saved for slot `i`, `None` when there is none.
    pub open spec fn slot(&self, i: u32) -> Option<T> {
        if i < 128 && self.data@.len() == 128 {
            self.data@[i as int]
        } else {
            None
        }
    }

    /// An empty delta.
    pub fn new() -> (b: Self)
        ensures
            b.wf(),
            b.updated_mask == 0,
            b.added_mask == 0,
            forall|j: u32| b.slot(j).is_none(),
    {
        proof {
            lemma_bit_single(0);
        }
        RollbackBlock { updated_mask: 0, added_mask: 0, data: empty_slots() }
    }
}

impl<T> Block<Box<Block<T>>> {
    /// Make sure that the child at `index` exists: where the presence bit
    /// is clear, an empty child is written, the presence bit set and the
    /// absence bit cleared. An existing child is left as it is.
    pub fn ensure_child_exists(&mut self, index: u32)
        requires
            old(self).wf(),
            index < 128,
        ensures
            final(self).wf(),
            bit(final(self).presence_mask, index),
            forall|j: u32| j != index ==> final(self).slot(j) == old(self).slot(j),
            forall|j: u32|
                j != index ==> bit(final(self).presence_mask, j) == bit(old(self).presence_mask, j),
            final(self).changed_mask == old(self).changed_mask,
            bit(old(self).presence_mask, index) ==> *final(self) == *old(self),
            !bit(old(self).presence_mask, index) ==> {
                &&& final(self).slot(index).is_some()
                &&& final(self).slot(index).unwrap().wf()
                &&& final(self).slot(index).unwrap().presence_mask == 0
                &&& final(self).slot(index).unwrap().absence_mask == 0
                &&& final(self).slot(index).unwrap().changed_mask == 0
                &&& forall|j: u32|
                    j != index ==> bit(final(self).absence_mask, j) == bit(
                        old(self).absence_mask,
                        j,
                    )
                &&& !bit(final(self).absence_mask, index)
            },
    {
        if !has_bit(self.presence_mask, index) {
            let new_block: Block<T> = Block::new();
            self.data[index as usize] = Some(Box::new(new_block));
            self.presence_mask = with_bit(self.presence_mask, index);
            // The new child is empty, so it is not marked as full.
            self.absence_mask = without_bit(self.absence_mask, index);
        }
    }
}

impl<T> RollbackBlock<Box<RollbackBlock<T>>> {
    /// Make sure that the child delta at `index` exists: where the updated
    /// bit is clear, an empty child is written and the bit set.
    pub fn ensure_child_exists(&mut self, index: u32)
        requires
            old(self).wf(),
            index < 128,
        ensures
            final(self).wf(),
            bit(final(self).updated_mask, index),
            final(self).added_mask == old(self).added_mask,
            forall|j: u32| j != index ==> final(self).slot(j) == old(self).slot(j),
            forall|j: u32|
                j != index ==> bit(final(self).updated_mask, j) == bit(old(self).updated_mask, j),
            bit(old(self).updated_mask, index) ==> *final(self) == *old(self),
            !bit(old(self).updated_mask, index) ==> {
                &&& final(self).slot(index).is_some()
                &&& final(self).slot(index).unwrap().wf()
                &&& final(self).slot(index).unwrap().updated_mask == 0
                &&& final(self).slot(index).unwrap().added_mask == 0
            },
    {
        if !has_bit(self.updated_mask, index) {
            let new_block: RollbackBlock<T> = RollbackBlock::new();
            self.data[index as usize] = Some(Box::new(new_block));
            self.updated_mask = with_bit(self.updated_mask, index);
        }
    }
}

} // verus!
