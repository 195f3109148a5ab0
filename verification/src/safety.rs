//! A run-time check of the invariants of a storage's live hierarchy.

use vstd::prelude::*;
use crate::bits::{bit, subset, FULL, has_bit, lemma_bit_ops, lemma_empty_iff};
use crate::block::{Block, RollbackBlock};
use crate::component::Component;
use crate::hierarchy::{inner_ok, Middle, middle_ok, Root, root_ok};
use crate::snapshot::{chain_ok, middle_delta_ok, MiddleDelta, RollbackStorage, root_delta_ok,
    RootDelta};
use crate::storage::Storage;

verus! {

/// Which invariant a block breaks.
#[derive(Clone, Copy, PartialEq, Eq, Debug, Structural)]
pub enum ViolationKind {
    /// The block has not 128 slots, or a slot is filled while its presence
    /// bit is clear, or empty while the bit is set.
    Slots,
    /// The absence mask has a bit that the presence mask lacks.
    Absence,
    /// The changed mask has a bit that the presence mask lacks.
    Changed,
    /// A slot of a leaf is present but not marked as occupied.
    Occupancy,
    /// The parent's absence bit for the block disagrees with whether the block is full.
    Fullness,
    /// The block has changes, but the parent's changed bit for it is clear.
    ChangePropagation,
}

/// Which block of the hierarchy breaks an invariant.
#[derive(Clone, Copy, PartialEq, Eq, Debug, Structural)]
pub enum BlockPath {
    /// The root.
    Root,
    /// The interior node at this position of the root.
    Middle(u32),
    /// The leaf at these positions of the root and of the interior node.
    Inner(u32, u32),
}

/// An invariant that a storage breaks, and where.
#[derive(Clone, Copy, PartialEq, Eq, Debug, Structural)]
pub struct InvariantViolation {
    pub kind: ViolationKind,
    pub at: BlockPath,
}

/// Whether a block by itself breaks the invariant `kind`.
pub open spec fn block_violates<T>(kind: ViolationKind, block: Block<T>) -> bool {
    match kind {
        ViolationKind::Slots => !block.slots_wf(),
        ViolationKind::Absence => !subset(block.absence_mask, block.presence_mask),
        ViolationKind::Changed => !subset(block.changed_mask, block.presence_mask),
        ViolationKind::Occupancy => block.absence_mask != block.presence_mask,
        _ => false,
    }
}

/// Whether a block, together with its parent's bits for it, breaks the
/// invariant `kind`.
pub open spec fn link_violates<T>(
    kind: ViolationKind,
    parent_says_full: bool,
    parent_says_changed: bool,
    block: Block<T>,
) -> bool {
    match kind {
        ViolationKind::Fullness => parent_says_full != (block.absence_mask == FULL),
        ViolationKind::ChangePropagation => block.changed_mask != 0 && !parent_says_changed,
        _ => block_violates(kind, block),
    }
}

impl InvariantViolation {
    /// Whether the hierarchy under `root` breaks this invariant at this place.
    pub open spec fn holds_of<T>(self, root: Root<T>) -> bool {
        match self.at {
            BlockPath::Root => block_violates(self.kind, root),
            BlockPath::Middle(ri) => {
                &&& root.slots_wf()
                &&& root.slot(ri).is_some()
                &&& link_violates(
                    self.kind,
                    bit(root.absence_mask, ri),
                    bit(root.changed_mask, ri),
                    *root.slot(ri).unwrap(),
                )
            },
            BlockPath::Inner(ri, mi) => {
                &&& root.slots_wf()
                &&& root.slot(ri).is_some()
                &&& root.slot(ri).unwrap().slots_wf()
                &&& root.slot(ri).unwrap().slot(mi).is_some()
                &&& link_violates(
                    self.kind,
                    bit(root.slot(ri).unwrap().absence_mask, mi),
                    bit(root.slot(ri).unwrap().changed_mask, mi),
                    *root.slot(ri).unwrap().slot(mi).unwrap(),
                )
            },
        }
    }

    /// What the violated invariant asks for, in words, for a diagnostic.
    pub fn description(&self) -> (text: &'static str)
        ensures
            text@ == describe(self.kind),
    {
        match self.kind {
            ViolationKind::Slots => "a slot must be filled exactly when its presence bit is set",
            ViolationKind::Absence => "absence_mask must be a subset of presence_mask",
            ViolationKind::Changed => "changed_mask must be a subset of presence_mask",
            ViolationKind::Occupancy => "a slot that is present must be marked in absence_mask",
            ViolationKind::Fullness => "the parent's absence bit must say whether the block is full",
            ViolationKind::ChangePropagation =>
                "a block with changes must be marked in the parent's changed_mask",
        }
    }
}

/// What the invariant `kind` asks for, in words.
pub open spec fn describe(kind: ViolationKind) -> Seq<char> {
    match kind {
        ViolationKind::Slots => "a slot must be filled exactly when its presence bit is set"@,
        ViolationKind::Absence => "absence_mask must be a subset of presence_mask"@,
        ViolationKind::Changed => "changed_mask must be a subset of presence_mask"@,
        ViolationKind::Occupancy => "a slot that is present must be marked in absence_mask"@,
        ViolationKind::Fullness => "the parent's absence bit must say whether the block is full"@,
        ViolationKind::ChangePropagation =>
            "a block with changes must be marked in the parent's changed_mask"@,
    }
}

/// Whether `a` has no bit that `b` lacks.
fn is_subset(a: u128, b: u128) -> (r: bool)
    ensures
        r == subset(a, b),
{
    proof {
        lemma_bit_ops(a, b);
        lemma_empty_iff(a & !b);
        if a & !b == 0 {
            assert forall|j: u32| bit(a, j) implies bit(b, j) by {
                assert(!bit(a & !b, j));
            }
        } else {
            let j = choose|j: u32| j < 128 && bit(a & !b, j);
            assert(bit(a, j) && !bit(b, j));
        }
    }
    a & !b == 0
}

/// Check a block's own invariants: 128 slots, each filled exactly when its
/// presence bit is set, and absence and changed masks within the presence mask.
pub fn check_block<T>(block: &Block<T>) -> (r: Result<(), ViolationKind>)
    ensures
        r.is_ok() <==> block.wf(),
        match r {
            Ok(_) => true,
            Err(kind) => block_violates(kind, *block) && (kind != ViolationKind::Slots
                ==> block.slots_wf()),
        },
{
    if block.data.len() != 128 {
        return Err(ViolationKind::Slots);
    }
    let mut j: u32 = 0;
    while j < 128
        invariant
            j <= 128,
            block.data@.len() == 128,
            forall|i: u32|
                #![trigger bit(block.presence_mask, i)]
                #![trigger block.slot(i)]
                i < j ==> (bit(block.presence_mask, i) <==> block.slot(i).is_some()),
        decreases 128 - j,
    {
        if has_bit(block.presence_mask, j) != block.data[j as usize].is_some() {
            proof {
                assert(bit(block.presence_mask, j) != block.slot(j).is_some());
            }
            return Err(ViolationKind::Slots);
        }
        j += 1;
    }
    if !is_subset(block.absence_mask, block.presence_mask) {
        return Err(ViolationKind::Absence);
    }
    if !is_subset(block.changed_mask, block.presence_mask) {
        return Err(ViolationKind::Changed);
    }
    Ok(())
}

/// Check a leaf together with its parent's bits for it.
fn check_inner<T>(inner: &Block<T>, parent_says_full: bool, parent_says_changed: bool) -> (r:
    Result<(), ViolationKind>)
    ensures
        r.is_ok() <==> {
            &&& inner_ok(*inner)
            &&& parent_says_full <==> inner.absence_mask == FULL
            &&& inner.changed_mask != 0 ==> parent_says_changed
        },
        match r {
            Ok(_) => true,
            Err(kind) => link_violates(kind, parent_says_full, parent_says_changed, *inner),
        },
{
    match check_block(inner) {
        Err(kind) => {
            return Err(kind);
        },
        Ok(_) => {},
    }
    if inner.absence_mask != inner.presence_mask {
        return Err(ViolationKind::Occupancy);
    }
    if parent_says_full != (inner.absence_mask == FULL) {
        return Err(ViolationKind::Fullness);
    }
    if inner.changed_mask != 0 && !parent_says_changed {
        return Err(ViolationKind::ChangePropagation);
    }
    Ok(())
}

/// Check the interior node at position `ri` of the root, with the root's
/// bits for it, and every leaf below it.
fn check_middle<T>(
    middle: &Middle<T>,
    ri: u32,
    parent_says_full: bool,
    parent_says_changed: bool,
) -> (r: Result<(), InvariantViolation>)
    ensures
        r.is_ok() <==> {
            &&& middle_ok(*middle)
            &&& parent_says_full <==> middle.absence_mask == FULL
            &&& middle.changed_mask != 0 ==> parent_says_changed
        },
        match r {
            Ok(_) => true,
            Err(v) => match v.at {
                BlockPath::Root => false,
                BlockPath::Middle(r) => r == ri && link_violates(
                    v.kind,
                    parent_says_full,
                    parent_says_changed,
                    *middle,
                ),
                BlockPath::Inner(r, mi) => {
                    &&& r == ri
                    &&& middle.slots_wf()
                    &&& middle.slot(mi).is_some()
                    &&& link_violates(
                        v.kind,
                        bit(middle.absence_mask, mi),
                        bit(middle.changed_mask, mi),
                        *middle.slot(mi).unwrap(),
                    )
                },
            },
        },
{
    match check_block(middle) {
        Err(kind) => {
            return Err(InvariantViolation { kind, at: BlockPath::Middle(ri) });
        },
        Ok(_) => {},
    }
    if parent_says_full != (middle.absence_mask == FULL) {
        return Err(InvariantViolation { kind: ViolationKind::Fullness, at: BlockPath::Middle(ri) });
    }
    if middle.changed_mask != 0 && !parent_says_changed {
        return Err(
            InvariantViolation { kind: ViolationKind::ChangePropagation, at: BlockPath::Middle(ri) },
        );
    }
    let mut mi: u32 = 0;
    while mi < 128
        invariant
            mi <= 128,
            middle.wf(),
            forall|m: u32|
                m < mi && #[trigger] bit(middle.presence_mask, m) ==> {
                    &&& inner_ok(*middle.slot(m).unwrap())
                    &&& bit(middle.absence_mask, m) <==> middle.slot(m).unwrap().absence_mask
                        == FULL
                    &&& middle.slot(m).unwrap().changed_mask != 0 ==> bit(middle.changed_mask, m)
                },
        decreases 128 - mi,
    {
        if let Some(inner) = &middle.data[mi as usize] {
            proof {
                assert(middle.slot(mi).is_some());
                assert(bit(middle.presence_mask, mi));
            }
            match check_inner(
                inner,
                has_bit(middle.absence_mask, mi),
                has_bit(middle.changed_mask, mi),
            ) {
                Err(kind) => {
                    return Err(InvariantViolation { kind, at: BlockPath::Inner(ri, mi) });
                },
                Ok(_) => {},
            }
        } else {
            proof {
                assert(middle.slot(mi).is_none());
            }
        }
        mi += 1;
    }
    Ok(())
}

/// Verify the invariants of the live hierarchy of `storage`: at every
/// block the slots agree with the presence mask and the absence and changed
/// masks lie within it; a leaf marks as occupied exactly the slots that are
/// present; an interior block's absence bit says whether the child is full;
/// and a child with changes is marked as changed in its parent.
///
/// Returns the first violation that the scan meets. No invariant is taken
/// for granted, so the check can be made on any storage.
pub fn verify_storage_invariants<T: Component>(storage: &Storage<T>) -> (r: Result<
    (),
    InvariantViolation,
>)
    ensures
        r.is_ok() <==> root_ok(storage.root),
        match r {
            Ok(_) => true,
            Err(v) => v.holds_of(storage.root),
        },
{
    let root = &storage.root;
    match check_block(root) {
        Err(kind) => {
            return Err(InvariantViolation { kind, at: BlockPath::Root });
        },
        Ok(_) => {},
    }
    let mut ri: u32 = 0;
    while ri < 128
        invariant
            ri <= 128,
            *root == storage.root,
            root.wf(),
            forall|r: u32|
                r < ri && #[trigger] bit(root.presence_mask, r) ==> {
                    &&& middle_ok(*root.slot(r).unwrap())
                    &&& bit(root.absence_mask, r) <==> root.slot(r).unwrap().absence_mask == FULL
                    &&& root.slot(r).unwrap().changed_mask != 0 ==> bit(root.changed_mask, r)
                },
        decreases 128 - ri,
    {
        if let Some(middle) = &root.data[ri as usize] {
            proof {
                assert(root.slot(ri).is_some());
                assert(bit(root.presence_mask, ri));
            }
            match check_middle(
                middle,
                ri,
                has_bit(root.absence_mask, ri),
                has_bit(root.changed_mask, ri),
            ) {
                Err(v) => {
                    return Err(v);
                },
                Ok(_) => {},
            }
        } else {
            proof {
                assert(root.slot(ri).is_none());
            }
        }
        ri += 1;
    }
    Ok(())
}

/// Check a snapshot block's own invariant: 128 slots, each filled
/// exactly when its updated bit is set.
fn check_delta_block<T>(block: &RollbackBlock<T>) -> (r: bool)
    ensures
        r == block.wf(),
{
    if block.data.len() != 128 {
        return false;
    }
    let mut j: u32 = 0;
    while j < 128
        invariant
            j <= 128,
            block.data@.len() == 128,
            forall|i: u32|
                #![trigger bit(block.updated_mask, i)]
                #![trigger block.slot(i)]
                i < j ==> (bit(block.updated_mask, i) <==> block.slot(i).is_some()),
        decreases 128 - j,
    {
        if has_bit(block.updated_mask, j) != block.data[j as usize].is_some() {
            proof {
                assert(bit(block.updated_mask, j) != block.slot(j).is_some());
            }
            return false;
        }
        j += 1;
    }
    true
}

/// Check an interior node of a snapshot and the leaves below it.
fn check_middle_delta<T>(middle: &MiddleDelta<T>) -> (r: bool)
    ensures
        r == middle_delta_ok(*middle),
{
    if !check_delta_block(middle) || middle.added_mask != 0 {
        return false;
    }
    let mut mi: u32 = 0;
    while mi < 128
        invariant
            mi <= 128,
            middle.wf(),
            middle.added_mask == 0,
            forall|m: u32|
                m < mi && #[trigger] bit(middle.updated_mask, m) ==> middle.slot(m).unwrap().wf(),
        decreases 128 - mi,
    {
        if let Some(inner) = &middle.data[mi as usize] {
            proof {
                assert(middle.slot(mi).is_some());
                assert(bit(middle.updated_mask, mi));
            }
            if !check_delta_block(inner) {
                return false;
            }
        } else {
            proof {
                assert(middle.slot(mi).is_none());
            }
        }
        mi += 1;
    }
    true
}

/// Check the tree of one snapshot.
fn check_root_delta<T>(root: &RootDelta<T>) -> (r: bool)
    ensures
        r == root_delta_ok(*root),
{
    if !check_delta_block(root) || root.added_mask != 0 {
        return false;
    }
    let mut ri: u32 = 0;
    while ri < 128
        invariant
            ri <= 128,
            root.wf(),
            root.added_mask == 0,
            forall|r: u32|
                r < ri && #[trigger] bit(root.updated_mask, r) ==> middle_delta_ok(
                    *root.slot(r).unwrap(),
                ),
        decreases 128 - ri,
    {
        if let Some(middle) = &root.data[ri as usize] {
            proof {
                assert(root.slot(ri).is_some());
                assert(bit(root.updated_mask, ri));
            }
            if !check_middle_delta(middle) {
                return false;
            }
        } else {
            proof {
                assert(root.slot(ri).is_none());
            }
        }
        ri += 1;
    }
    true
}

/// The number of snapshots of a chain.
pub open spec fn chain_depth<T>(head: Option<Box<RollbackStorage<T>>>) -> nat {
    match head {
        Some(h) => h.depth(),
        None => 0,
    }
}

/// Whether the tree of every snapshot in the chain of `storage` is sound.
pub fn verify_snapshot_invariants<T: Component>(storage: &Storage<T>) -> (r: bool)
    ensures
        r == chain_ok(storage.snapshot),
{
    let mut current = &storage.snapshot;
    loop
        invariant
            chain_ok(storage.snapshot) == chain_ok(*current),
        decreases chain_depth(*current),
    {
        match current {
            None => {
                return true;
            },
            Some(snapshot) => {
                if !check_root_delta(&snapshot.root) {
                    return false;
                }
                current = &snapshot.prev;
            },
        }
    }
}

/// Whether the invariants of `storage` hold: those of the live hierarchy
/// and those of every snapshot. This is what the operations of a storage
/// require.
pub fn is_sound<T: Component>(storage: &Storage<T>) -> (r: bool)
    ensures
        r == storage.wf(),
{
    verify_storage_invariants(storage).is_ok() && verify_snapshot_invariants(storage)
}

} // verus!
