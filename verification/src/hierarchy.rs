//! The live hierarchy of a storage: three levels of 128-slot blocks, what
//! its invariants are, and the operations on a slot at each level.

use vstd::prelude::*;
use crate::bits::{bit, count, count_below, FULL, with_bit, without_bit, lemma_bit_ops,
    lemma_bit_single, lemma_count_bounds, lemma_empty_iff, lemma_full_absorbs, lemma_full_iff};
use crate::block::Block;

verus! {

/// Number of slots that a storage addresses: `128 * 128 * 128`.
pub const CAPACITY: u32 = 2097152;

/// A leaf of the live hierarchy: 128 component instances.
pub type Inner<T> = Block<T>;

/// An interior node of the live hierarchy: 128 leaves.
pub type Middle<T> = Block<Box<Block<T>>>;

/// The root of the live hierarchy: 128 interior nodes.
pub type Root<T> = Block<Box<Block<Box<Block<T>>>>>;

/// The position of `index` in the root block.
pub open spec fn root_index(index: u32) -> u32 {
    index / 16384
}

/// The position of `index` in its middle block.
pub open spec fn middle_index(index: u32) -> u32 {
    (index / 128) % 128
}

/// The position of `index` in its leaf.
pub open spec fn inner_index(index: u32) -> u32 {
    index % 128
}

/// The index of the slot at positions `ri`, `mi`, `ii` of the three levels.
pub open spec fn slot_index(ri: u32, mi: u32, ii: u32) -> u32
    recommends
        ri < 128,
        mi < 128,
        ii < 128,
{
    (ri * 16384 + mi * 128 + ii) as u32
}

/// Split an index below `CAPACITY` into its positions at the three levels.
pub fn decode(index: u32) -> (r: (u32, u32, u32))
    requires
        index < CAPACITY,
    ensures
        r.0 == root_index(index),
        r.1 == middle_index(index),
        r.2 == inner_index(index),
        r.0 < 128,
        r.1 < 128,
        r.2 < 128,
        slot_index(r.0, r.1, r.2) == index,
{
    assert(index >> 14 == index / 16384 && (index >> 7) & 0x7F == (index / 128) % 128 && index
        & 0x7F == index % 128) by (bit_vector);
    (index >> 14, (index >> 7) & 0x7F, index & 0x7F)
}

/// An index below `CAPACITY` is determined by its positions at the three levels.
pub proof fn lemma_decode(index: u32)
    requires
        index < CAPACITY,
    ensures
        root_index(index) < 128,
        middle_index(index) < 128,
        inner_index(index) < 128,
        slot_index(root_index(index), middle_index(index), inner_index(index)) == index,
{
}

/// The slot at given positions of the three levels has those positions.
pub proof fn lemma_encode(ri: u32, mi: u32, ii: u32)
    requires
        ri < 128,
        mi < 128,
        ii < 128,
    ensures
        slot_index(ri, mi, ii) < CAPACITY,
        root_index(slot_index(ri, mi, ii)) == ri,
        middle_index(slot_index(ri, mi, ii)) == mi,
        inner_index(slot_index(ri, mi, ii)) == ii,
{
}

/// A leaf is sound: its own invariants hold, and a slot is marked as
/// occupied exactly when it is present.
pub open spec fn inner_ok<T>(inner: Block<T>) -> bool {
    &&& inner.wf()
    &&& inner.absence_mask == inner.presence_mask
}

/// An interior node is sound: its own invariants hold, every leaf below
/// it is sound, a leaf's absence bit says whether that leaf is full, and a
/// leaf with changes has its changed bit set.
pub open spec fn middle_ok<T>(middle: Middle<T>) -> bool {
    &&& middle.wf()
    &&& forall|mi: u32| #[trigger]
        bit(middle.presence_mask, mi) ==> {
            &&& inner_ok(*middle.slot(mi).unwrap())
            &&& bit(middle.absence_mask, mi) <==> middle.slot(mi).unwrap().absence_mask == FULL
            &&& middle.slot(mi).unwrap().changed_mask != 0 ==> bit(middle.changed_mask, mi)
        }
}

/// The root is sound: its own invariants hold, every interior node below
/// it is sound, an interior node's absence bit says whether that node is
/// full, and an interior node with changes has its changed bit set.
pub open spec fn root_ok<T>(root: Root<T>) -> bool {
    &&& root.wf()
    &&& forall|ri: u32| #[trigger]
        bit(root.presence_mask, ri) ==> {
            &&& middle_ok(*root.slot(ri).unwrap())
            &&& bit(root.absence_mask, ri) <==> root.slot(ri).unwrap().absence_mask == FULL
            &&& root.slot(ri).unwrap().changed_mask != 0 ==> bit(root.changed_mask, ri)
        }
}

/// What the slot at positions `mi`, `ii` below an interior node holds.
pub open spec fn middle_value<T>(middle: Middle<T>, mi: u32, ii: u32) -> Option<T> {
    match middle.slot(mi) {
        Some(inner) => inner.slot(ii),
        None => None,
    }
}

/// Whether the slot at positions `mi`, `ii` below an interior node is
/// marked as changed in its leaf.
pub open spec fn middle_changed<T>(middle: Middle<T>, mi: u32, ii: u32) -> bool {
    match middle.slot(mi) {
        Some(inner) => bit(inner.changed_mask, ii),
        None => false,
    }
}

/// What the slot at positions `ri`, `mi`, `ii` holds.
pub open spec fn value_at<T>(root: Root<T>, ri: u32, mi: u32, ii: u32)
    -> Option<T> {
    match root.slot(ri) {
        Some(middle) => middle_value(*middle, mi, ii),
        None => None,
    }
}

/// Whether the slot at positions `ri`, `mi`, `ii` is marked as changed in its leaf.
pub open spec fn changed_at<T>(root: Root<T>, ri: u32, mi: u32, ii: u32)
    -> bool {
    match root.slot(ri) {
        Some(middle) => middle_changed(*middle, mi, ii),
        None => false,
    }
}

/// Whether every block on the way to the slot at `ri`, `mi`, `ii` marks
/// the step towards it as changed.
pub open spec fn changed_path<T>(root: Root<T>, ri: u32, mi: u32, ii: u32)
    -> bool {
    &&& bit(root.changed_mask, ri)
    &&& root.slot(ri).is_some()
    &&& bit(root.slot(ri).unwrap().changed_mask, mi)
    &&& changed_at(root, ri, mi, ii)
}

/// Write `value` into slot `ii` of a leaf and mark the slot as present,
/// occupied and changed.
pub fn inner_set<T>(inner: &mut Block<T>, ii: u32, value: T)
    requires
        inner_ok(*old(inner)),
        ii < 128,
    ensures
        inner_ok(*final(inner)),
        final(inner).slot(ii) == Some(value),
        forall|i: u32| i != ii ==> final(inner).slot(i) == old(inner).slot(i),
        forall|i: u32|
            bit(final(inner).changed_mask, i) == (bit(old(inner).changed_mask, i) || i == ii),
        final(inner).changed_mask != 0,
        old(inner).absence_mask == FULL ==> final(inner).absence_mask == FULL,
{
    inner.data[ii as usize] = Some(value);
    inner.presence_mask = with_bit(inner.presence_mask, ii);
    inner.absence_mask = with_bit(inner.absence_mask, ii);
    inner.changed_mask = with_bit(inner.changed_mask, ii);
    proof {
        lemma_full_absorbs(old(inner).absence_mask, ii);
        lemma_full_absorbs(old(inner).changed_mask, ii);
    }
}

/// Empty slot `ii` of a leaf and clear its present, occupied and changed bits.
pub fn inner_remove<T>(inner: &mut Block<T>, ii: u32)
    requires
        inner_ok(*old(inner)),
        ii < 128,
    ensures
        inner_ok(*final(inner)),
        final(inner).slot(ii).is_none(),
        forall|i: u32| i != ii ==> final(inner).slot(i) == old(inner).slot(i),
        forall|i: u32|
            bit(final(inner).changed_mask, i) == (bit(old(inner).changed_mask, i) && i != ii),
        final(inner).absence_mask != FULL,
{
    inner.data[ii as usize] = None;
    inner.presence_mask = without_bit(inner.presence_mask, ii);
    inner.absence_mask = without_bit(inner.absence_mask, ii);
    inner.changed_mask = without_bit(inner.changed_mask, ii);
    proof {
        lemma_full_absorbs(old(inner).absence_mask, ii);
    }
}

/// Set the slot at `mi`, `ii` below an interior node, creating the leaf
/// where it is missing, and bring the node's masks up to date.
fn middle_set<T>(middle: &mut Middle<T>, mi: u32, ii: u32, value: T)
    requires
        middle_ok(*old(middle)),
        mi < 128,
        ii < 128,
    ensures
        middle_ok(*final(middle)),
        middle_value(*final(middle), mi, ii) == Some(value),
        forall|m: u32, i: u32|
            !(m == mi && i == ii) ==> middle_value(*final(middle), m, i) == middle_value(
                *old(middle),
                m,
                i,
            ),
        forall|m: u32, i: u32|
            middle_changed(*final(middle), m, i) == (middle_changed(*old(middle), m, i) || (m
                == mi && i == ii)),
        bit(final(middle).changed_mask, mi),
        final(middle).changed_mask != 0,
{
    proof {
        lemma_bit_single(0);
    }
    middle.ensure_child_exists(mi);
    let ghost before = *middle;
    let mut full = false;
    match &mut middle.data[mi as usize] {
        None => {},
        Some(inner) => {
            inner_set(inner, ii, value);
            full = inner.absence_mask == FULL;
        },
    }
    if full {
        middle.absence_mask = with_bit(middle.absence_mask, mi);
    }
    middle.changed_mask = with_bit(middle.changed_mask, mi);
    proof {
        assert(forall|m: u32| m != mi ==> middle.slot(m) == before.slot(m));
        assert(bit(middle.changed_mask, mi));
        assert forall|m: u32| #[trigger] bit(middle.presence_mask, m) implies {
            &&& inner_ok(*middle.slot(m).unwrap())
            &&& bit(middle.absence_mask, m) <==> middle.slot(m).unwrap().absence_mask == FULL
            &&& middle.slot(m).unwrap().changed_mask != 0 ==> bit(middle.changed_mask, m)
        } by {
            if m != mi {
                assert(bit(before.presence_mask, m));
            }
        }
        assert forall|m: u32, i: u32|
            !(m == mi && i == ii) implies middle_value(*middle, m, i) == middle_value(
            *old(middle),
            m,
            i,
        ) by {
            if m == mi && !bit(old(middle).presence_mask, mi) {
                assert(!bit(before.slot(mi).unwrap().presence_mask, i));
            }
        }
        assert forall|m: u32, i: u32|
            middle_changed(*middle, m, i) == (middle_changed(*old(middle), m, i) || (m == mi && i
                == ii)) by {
            if m == mi && !bit(old(middle).presence_mask, mi) {
                assert(!bit(before.slot(mi).unwrap().changed_mask, i));
            }
        }
    }
}

/// Empty the slot at `mi`, `ii` below an interior node whose leaf at `mi`
/// exists, and bring the node's masks up to date. With `mark`, the leaf is
/// marked as changed in the node.
fn middle_remove<T>(middle: &mut Middle<T>, mi: u32, ii: u32, mark: bool)
    requires
        middle_ok(*old(middle)),
        mi < 128,
        ii < 128,
        bit(old(middle).presence_mask, mi),
    ensures
        middle_ok(*final(middle)),
        middle_value(*final(middle), mi, ii).is_none(),
        forall|m: u32, i: u32|
            !(m == mi && i == ii) ==> middle_value(*final(middle), m, i) == middle_value(
                *old(middle),
                m,
                i,
            ),
        forall|m: u32, i: u32|
            middle_changed(*final(middle), m, i) == (middle_changed(*old(middle), m, i) && !(m
                == mi && i == ii)),
        final(middle).absence_mask != FULL,
        !mark ==> final(middle).changed_mask == old(middle).changed_mask,
        mark ==> final(middle).changed_mask != 0,
        forall|m: u32|
            bit(final(middle).changed_mask, m) == (bit(old(middle).changed_mask, m) || (mark && m
                == mi)),
        final(middle).presence_mask == old(middle).presence_mask,
{
    let ghost before = *middle;
    match &mut middle.data[mi as usize] {
        None => {},
        Some(inner) => {
            inner_remove(inner, ii);
        },
    }
    // The leaf is no longer full.
    middle.absence_mask = without_bit(middle.absence_mask, mi);
    if mark {
        middle.changed_mask = with_bit(middle.changed_mask, mi);
    }
    proof {
        lemma_full_absorbs(before.absence_mask, mi);
        lemma_full_absorbs(before.changed_mask, mi);
        assert(forall|m: u32| m != mi ==> middle.slot(m) == before.slot(m));
        assert forall|m: u32| #[trigger] bit(middle.presence_mask, m) implies {
            &&& inner_ok(*middle.slot(m).unwrap())
            &&& bit(middle.absence_mask, m) <==> middle.slot(m).unwrap().absence_mask == FULL
            &&& middle.slot(m).unwrap().changed_mask != 0 ==> bit(middle.changed_mask, m)
        } by {
            if m == mi {
                if middle.slot(m).unwrap().changed_mask != 0 {
                    crate::bits::lemma_empty_iff(middle.slot(m).unwrap().changed_mask);
                    let j = choose|j: u32| j < 128 && bit(middle.slot(m).unwrap().changed_mask, j);
                    assert(bit(before.slot(m).unwrap().changed_mask, j));
                    lemma_bit_single(0);
                }
            }
        }
    }
}

/// Set the slot at `ri`, `mi`, `ii`, creating the blocks on the way to it
/// where they are missing, and bring the masks of every level up to date.
pub fn root_set<T>(root: &mut Root<T>, ri: u32, mi: u32, ii: u32, value: T)
    requires
        root_ok(*old(root)),
        ri < 128,
        mi < 128,
        ii < 128,
    ensures
        root_ok(*final(root)),
        value_at(*final(root), ri, mi, ii) == Some(value),
        forall|r: u32, m: u32, i: u32|
            !(r == ri && m == mi && i == ii) ==> value_at(*final(root), r, m, i) == value_at(
                *old(root),
                r,
                m,
                i,
            ),
        forall|r: u32, m: u32, i: u32|
            changed_at(*final(root), r, m, i) == (changed_at(*old(root), r, m, i) || (r == ri && m
                == mi && i == ii)),
        changed_path(*final(root), ri, mi, ii),
{
    proof {
        lemma_bit_single(0);
    }
    root.ensure_child_exists(ri);
    let ghost before = *root;
    let mut full = false;
    match &mut root.data[ri as usize] {
        None => {},
        Some(middle) => {
            middle_set(middle, mi, ii, value);
            full = middle.absence_mask == FULL;
        },
    }
    if full {
        root.absence_mask = with_bit(root.absence_mask, ri);
    } else {
        root.absence_mask = without_bit(root.absence_mask, ri);
    }
    root.changed_mask = with_bit(root.changed_mask, ri);
    proof {
        assert(forall|r: u32| r != ri ==> root.slot(r) == before.slot(r));
        assert(bit(root.changed_mask, ri));
        assert forall|r: u32| #[trigger] bit(root.presence_mask, r) implies {
            &&& middle_ok(*root.slot(r).unwrap())
            &&& bit(root.absence_mask, r) <==> root.slot(r).unwrap().absence_mask == FULL
            &&& root.slot(r).unwrap().changed_mask != 0 ==> bit(root.changed_mask, r)
        } by {
            if r != ri {
                assert(bit(before.presence_mask, r));
            }
        }
        assert forall|r: u32, m: u32, i: u32|
            !(r == ri && m == mi && i == ii) implies value_at(*root, r, m, i) == value_at(
            *old(root),
            r,
            m,
            i,
        ) by {
            if r == ri && !bit(old(root).presence_mask, ri) {
                assert(!bit(before.slot(ri).unwrap().presence_mask, m));
            }
        }
        assert forall|r: u32, m: u32, i: u32|
            changed_at(*root, r, m, i) == (changed_at(*old(root), r, m, i) || (r == ri && m == mi
                && i == ii)) by {
            if r == ri && !bit(old(root).presence_mask, ri) {
                assert(!bit(before.slot(ri).unwrap().presence_mask, m));
            }
        }
    }
}

/// Empty the slot at `ri`, `mi`, `ii`, whose leaf exists, and bring the
/// masks of every level up to date. With `mark`, the way to the slot is
/// marked as changed in the interior blocks.
pub fn root_remove<T>(root: &mut Root<T>, ri: u32, mi: u32, ii: u32, mark: bool)
    requires
        root_ok(*old(root)),
        ri < 128,
        mi < 128,
        ii < 128,
        bit(old(root).presence_mask, ri),
        bit(old(root).slot(ri).unwrap().presence_mask, mi),
    ensures
        root_ok(*final(root)),
        value_at(*final(root), ri, mi, ii).is_none(),
        forall|r: u32, m: u32, i: u32|
            !(r == ri && m == mi && i == ii) ==> value_at(*final(root), r, m, i) == value_at(
                *old(root),
                r,
                m,
                i,
            ),
        forall|r: u32, m: u32, i: u32|
            changed_at(*final(root), r, m, i) == (changed_at(*old(root), r, m, i) && !(r == ri
                && m == mi && i == ii)),
        final(root).presence_mask == old(root).presence_mask,
        forall|r: u32|
            bit(final(root).changed_mask, r) == (bit(old(root).changed_mask, r) || (mark && r
                == ri)),
{
    let ghost before = *root;
    match &mut root.data[ri as usize] {
        None => {},
        Some(middle) => {
            middle_remove(middle, mi, ii, mark);
        },
    }
    // The interior node is no longer full.
    root.absence_mask = without_bit(root.absence_mask, ri);
    if mark {
        root.changed_mask = with_bit(root.changed_mask, ri);
    }
    proof {
        assert(forall|r: u32| r != ri ==> root.slot(r) == before.slot(r));
        assert forall|r: u32| #[trigger] bit(root.presence_mask, r) implies {
            &&& middle_ok(*root.slot(r).unwrap())
            &&& bit(root.absence_mask, r) <==> root.slot(r).unwrap().absence_mask == FULL
            &&& root.slot(r).unwrap().changed_mask != 0 ==> bit(root.changed_mask, r)
        } by {
            assert(bit(before.presence_mask, r));
        }
    }
}

/// A mutable reference to the value in slot `ii` of a leaf; the slot is
/// marked as changed.
fn inner_touch<T>(inner: &mut Block<T>, ii: u32) -> (value: &mut T)
    requires
        inner_ok(*old(inner)),
        ii < 128,
        old(inner).slot(ii).is_some(),
    ensures
        *value == old(inner).slot(ii).unwrap(),
        inner_ok(*final(inner)),
        final(inner).slot(ii) == Some(*final(value)),
        forall|i: u32| i != ii ==> final(inner).slot(i) == old(inner).slot(i),
        forall|i: u32|
            bit(final(inner).changed_mask, i) == (bit(old(inner).changed_mask, i) || i == ii),
        final(inner).changed_mask != 0,
        final(inner).absence_mask == old(inner).absence_mask,
{
    inner.changed_mask = with_bit(inner.changed_mask, ii);
    proof {
        lemma_full_absorbs(old(inner).changed_mask, ii);
    }
    match &mut inner.data[ii as usize] {
        Some(v) => v,
        None => unreached(),
    }
}

/// A mutable reference to the value at `mi`, `ii` below an interior node;
/// the slot and its leaf are marked as changed.
fn middle_touch<T>(middle: &mut Middle<T>, mi: u32, ii: u32) -> (value: &mut T)
    requires
        middle_ok(*old(middle)),
        mi < 128,
        ii < 128,
        middle_value(*old(middle), mi, ii).is_some(),
    ensures
        *value == middle_value(*old(middle), mi, ii).unwrap(),
        middle_ok(*final(middle)),
        middle_value(*final(middle), mi, ii) == Some(*final(value)),
        forall|m: u32, i: u32|
            !(m == mi && i == ii) ==> middle_value(*final(middle), m, i) == middle_value(
                *old(middle),
                m,
                i,
            ),
        forall|m: u32, i: u32|
            middle_changed(*final(middle), m, i) == (middle_changed(*old(middle), m, i) || (m
                == mi && i == ii)),
        bit(final(middle).changed_mask, mi),
        final(middle).changed_mask != 0,
        final(middle).absence_mask == old(middle).absence_mask,
{
    middle.changed_mask = with_bit(middle.changed_mask, mi);
    proof {
        lemma_full_absorbs(old(middle).changed_mask, mi);
        assert(bit(old(middle).presence_mask, mi));
    }
    match &mut middle.data[mi as usize] {
        Some(inner) => inner_touch(inner, ii),
        None => unreached(),
    }
}

/// How the hierarchy `after` differs from `before` when the slot at
/// `ri`, `mi`, `ii` was written with `value` and marked as changed on
/// every level: it is sound, the slot holds `value`, and every other slot
/// holds and is marked as before.
pub open spec fn root_written<T>(
    before: Root<T>,
    after: Root<T>,
    ri: u32,
    mi: u32,
    ii: u32,
    value: T,
) -> bool {
    &&& root_ok(after)
    &&& value_at(after, ri, mi, ii) == Some(value)
    &&& forall|r: u32, m: u32, i: u32|
        !(r == ri && m == mi && i == ii) ==> value_at(after, r, m, i) == value_at(before, r, m, i)
    &&& forall|r: u32, m: u32, i: u32|
        changed_at(after, r, m, i) == (changed_at(before, r, m, i) || (r == ri && m == mi && i
            == ii))
    &&& changed_path(after, ri, mi, ii)
}

/// A mutable reference to the value at `ri`, `mi`, `ii`; the slot is
/// marked as changed on every level.
pub fn root_touch<T>(root: &mut Root<T>, ri: u32, mi: u32, ii: u32) -> (value:
    &mut T)
    requires
        root_ok(*old(root)),
        ri < 128,
        mi < 128,
        ii < 128,
        value_at(*old(root), ri, mi, ii).is_some(),
    ensures
        *value == value_at(*old(root), ri, mi, ii).unwrap(),
        root_written(*old(root), *final(root), ri, mi, ii, *final(value)),
{
    root.changed_mask = with_bit(root.changed_mask, ri);
    proof {
        assert(bit(old(root).presence_mask, ri));
    }
    match &mut root.data[ri as usize] {
        Some(middle) => middle_touch(middle, mi, ii),
        None => unreached(),
    }
}

/// The leaf `after` has the presence and absence masks of `before`, and
/// an empty changed mask.
pub open spec fn leaf_cleared<T>(after: Block<T>, before: Block<T>) -> bool {
    &&& after.presence_mask == before.presence_mask
    &&& after.absence_mask == before.absence_mask
    &&& after.changed_mask == 0
}

/// The interior node `after` and every leaf below it have the presence
/// and absence masks that they have in `before`, and empty changed masks.
pub open spec fn middle_cleared<T>(after: Middle<T>, before: Middle<T>) -> bool {
    &&& after.presence_mask == before.presence_mask
    &&& after.absence_mask == before.absence_mask
    &&& after.changed_mask == 0
    &&& forall|mi: u32| #[trigger]
        bit(after.presence_mask, mi) ==> leaf_cleared(
            *after.slot(mi).unwrap(),
            *before.slot(mi).unwrap(),
        )
}

/// Every block of the hierarchy `after` has the presence and absence
/// masks that it has in `before`, and an empty changed mask.
pub open spec fn root_cleared<T>(after: Root<T>, before: Root<T>) -> bool {
    &&& after.presence_mask == before.presence_mask
    &&& after.absence_mask == before.absence_mask
    &&& after.changed_mask == 0
    &&& forall|ri: u32| #[trigger]
        bit(after.presence_mask, ri) ==> middle_cleared(
            *after.slot(ri).unwrap(),
            *before.slot(ri).unwrap(),
        )
}

/// Clear the changed bits of every leaf below an interior node that the
/// node marks as changed, and then those of the node itself.
fn middle_clear_changes<T>(middle: &mut Middle<T>)
    requires
        middle_ok(*old(middle)),
    ensures
        middle_ok(*final(middle)),
        middle_cleared(*final(middle), *old(middle)),
        final(middle).changed_mask == 0,
        final(middle).presence_mask == old(middle).presence_mask,
        final(middle).absence_mask == old(middle).absence_mask,
        forall|m: u32, i: u32|
            middle_value(*final(middle), m, i) == middle_value(*old(middle), m, i),
        forall|m: u32, i: u32| !middle_changed(*final(middle), m, i),
{
    proof {
        crate::bits::lemma_bit_ops(middle.changed_mask, middle.presence_mask);
        lemma_bit_single(0);
    }
    // Iterate only over the leaves that have changes.
    let mut iter = middle.changed_mask & middle.presence_mask;
    let ghost first = iter;
    let mut low: u32 = 0;
    while iter != 0
        invariant
            low <= 128,
            middle.wf(),
            middle.presence_mask == old(middle).presence_mask,
            middle.absence_mask == old(middle).absence_mask,
            middle.changed_mask == old(middle).changed_mask,
            middle_ok(*old(middle)),
            forall|j: u32| #[trigger]
                bit(first, j) == (bit(old(middle).changed_mask, j) && bit(
                    old(middle).presence_mask,
                    j,
                )),
            forall|j: u32| j < low ==> !bit(iter, j),
            forall|j: u32| bit(iter, j) ==> bit(first, j),
            forall|j: u32| bit(first, j) && low <= j ==> bit(iter, j),
            forall|m: u32| #[trigger]
                bit(middle.presence_mask, m) ==> {
                    &&& inner_ok(*middle.slot(m).unwrap())
                    &&& middle.slot(m).unwrap().absence_mask == old(middle).slot(
                        m,
                    ).unwrap().absence_mask
                    &&& middle.slot(m).unwrap().presence_mask == old(middle).slot(
                        m,
                    ).unwrap().presence_mask
                    &&& forall|i: u32|
                        middle.slot(m).unwrap().slot(i) == old(middle).slot(m).unwrap().slot(i)
                    &&& (bit(first, m) && m < low) ==> middle.slot(m).unwrap().changed_mask == 0
                    &&& !(bit(first, m) && m < low) ==> middle.slot(m).unwrap().changed_mask
                        == old(middle).slot(m).unwrap().changed_mask
                },
        decreases 128 - low,
    {
        let mi = iter.trailing_zeros();
        let ghost before = *middle;
        match &mut middle.data[mi as usize] {
            None => {},
            Some(inner) => {
                inner.changed_mask = 0;
            },
        }
        iter = without_bit(iter, mi);
        proof {
            lemma_bit_single(0);
            assert(forall|m: u32| m != mi ==> middle.slot(m) == before.slot(m));
            assert forall|m: u32| #[trigger] bit(middle.presence_mask, m) implies {
                &&& inner_ok(*middle.slot(m).unwrap())
                &&& middle.slot(m).unwrap().absence_mask == old(middle).slot(
                    m,
                ).unwrap().absence_mask
                &&& middle.slot(m).unwrap().presence_mask == old(middle).slot(
                    m,
                ).unwrap().presence_mask
                &&& forall|i: u32|
                    middle.slot(m).unwrap().slot(i) == old(middle).slot(m).unwrap().slot(i)
                &&& (bit(first, m) && m < mi + 1) ==> middle.slot(m).unwrap().changed_mask == 0
                &&& !(bit(first, m) && m < mi + 1) ==> middle.slot(m).unwrap().changed_mask
                    == old(middle).slot(m).unwrap().changed_mask
            } by {
                assert(bit(before.presence_mask, m));
                if m != mi && bit(first, m) && m < mi + 1 {
                    if low <= m {
                        assert(bit(iter, m) || m == mi);
                    }
                }
            }
        }
        low = mi + 1;
    }
    // Clear the node's own changed bits.
    middle.changed_mask = 0;
    proof {
        assert forall|m: u32| #[trigger] bit(middle.presence_mask, m) implies middle.slot(
            m,
        ).unwrap().changed_mask == 0 by {
            if !bit(first, m) {
                assert(!bit(old(middle).changed_mask, m));
                assert(bit(old(middle).presence_mask, m));
            } else {
                assert(!bit(iter, m));
            }
        }
        assert forall|m: u32, i: u32| !middle_changed(*middle, m, i) by {
            if middle.slot(m).is_some() {
                assert(bit(middle.presence_mask, m));
            }
        }
        assert forall|m: u32, i: u32|
            middle_value(*middle, m, i) == middle_value(*old(middle), m, i) by {
            if middle.slot(m).is_some() {
                assert(bit(middle.presence_mask, m));
            } else {
                assert(!bit(old(middle).presence_mask, m));
            }
        }
    }
}

/// Clear the changed bits of every block that is marked as changed on the
/// way down from the root.
pub fn root_clear_changes<T>(root: &mut Root<T>)
    requires
        root_ok(*old(root)),
    ensures
        root_ok(*final(root)),
        root_cleared(*final(root), *old(root)),
        final(root).changed_mask == 0,
        final(root).presence_mask == old(root).presence_mask,
        final(root).absence_mask == old(root).absence_mask,
        forall|r: u32, m: u32, i: u32|
            value_at(*final(root), r, m, i) == value_at(*old(root), r, m, i),
        forall|r: u32, m: u32, i: u32| !changed_at(*final(root), r, m, i),
        forall|r: u32| #[trigger]
            bit(final(root).presence_mask, r) ==> final(root).slot(r).unwrap().changed_mask == 0,
{
    proof {
        crate::bits::lemma_bit_ops(root.changed_mask, root.presence_mask);
        lemma_bit_single(0);
    }
    // Iterate only over the interior nodes that have changes.
    let mut iter = root.changed_mask & root.presence_mask;
    let ghost first = iter;
    let mut low: u32 = 0;
    while iter != 0
        invariant
            low <= 128,
            root.wf(),
            root.presence_mask == old(root).presence_mask,
            root.absence_mask == old(root).absence_mask,
            root.changed_mask == old(root).changed_mask,
            root_ok(*old(root)),
            forall|j: u32| #[trigger]
                bit(first, j) == (bit(old(root).changed_mask, j) && bit(
                    old(root).presence_mask,
                    j,
                )),
            forall|j: u32| j < low ==> !bit(iter, j),
            forall|j: u32| bit(iter, j) ==> bit(first, j),
            forall|j: u32| bit(first, j) && low <= j ==> bit(iter, j),
            forall|r: u32| #[trigger]
                bit(root.presence_mask, r) ==> {
                    &&& middle_ok(*root.slot(r).unwrap())
                    &&& root.slot(r).unwrap().absence_mask == old(root).slot(
                        r,
                    ).unwrap().absence_mask
                    &&& forall|m: u32, i: u32|
                        middle_value(*root.slot(r).unwrap(), m, i) == middle_value(
                            *old(root).slot(r).unwrap(),
                            m,
                            i,
                        )
                    &&& (bit(first, r) && r < low) ==> {
                        &&& root.slot(r).unwrap().changed_mask == 0
                        &&& middle_cleared(*root.slot(r).unwrap(), *old(root).slot(r).unwrap())
                        &&& forall|m: u32, i: u32| !middle_changed(*root.slot(r).unwrap(), m, i)
                    }
                    &&& !(bit(first, r) && r < low) ==> *root.slot(r).unwrap() == *old(root).slot(
                        r,
                    ).unwrap()
                },
        decreases 128 - low,
    {
        let ri = iter.trailing_zeros();
        let ghost before = *root;
        match &mut root.data[ri as usize] {
            None => {},
            Some(middle) => {
                middle_clear_changes(middle);
            },
        }
        iter = without_bit(iter, ri);
        proof {
            assert(forall|r: u32| r != ri ==> root.slot(r) == before.slot(r));
            assert forall|r: u32| #[trigger] bit(root.presence_mask, r) implies {
                &&& middle_ok(*root.slot(r).unwrap())
                &&& root.slot(r).unwrap().absence_mask == old(root).slot(r).unwrap().absence_mask
                &&& forall|m: u32, i: u32|
                    middle_value(*root.slot(r).unwrap(), m, i) == middle_value(
                        *old(root).slot(r).unwrap(),
                        m,
                        i,
                    )
                &&& (bit(first, r) && r < ri + 1) ==> {
                    &&& root.slot(r).unwrap().changed_mask == 0
                    &&& middle_cleared(*root.slot(r).unwrap(), *old(root).slot(r).unwrap())
                    &&& forall|m: u32, i: u32| !middle_changed(*root.slot(r).unwrap(), m, i)
                }
                &&& !(bit(first, r) && r < ri + 1) ==> *root.slot(r).unwrap() == *old(root).slot(
                    r,
                ).unwrap()
            } by {
                assert(bit(before.presence_mask, r));
                if r != ri && bit(first, r) && r < ri + 1 {
                    if low <= r {
                        assert(bit(iter, r) || r == ri);
                    }
                }
            }
        }
        low = ri + 1;
    }
    // Clear the root's own changed bits.
    root.changed_mask = 0;
    proof {
        assert forall|r: u32| #[trigger] bit(root.presence_mask, r) implies {
            &&& root.slot(r).unwrap().changed_mask == 0
            &&& middle_cleared(*root.slot(r).unwrap(), *old(root).slot(r).unwrap())
            &&& forall|m: u32, i: u32| !middle_changed(*root.slot(r).unwrap(), m, i)
        } by {
            if !bit(first, r) {
                assert(!bit(old(root).changed_mask, r));
                assert(bit(old(root).presence_mask, r));
                let middle = *old(root).slot(r).unwrap();
                assert(middle.changed_mask == 0);
                assert forall|m: u32| #[trigger] bit(middle.presence_mask, m) implies leaf_cleared(
                    *middle.slot(m).unwrap(),
                    *middle.slot(m).unwrap(),
                ) by {
                    assert(!bit(middle.changed_mask, m));
                }
                assert forall|m: u32, i: u32| !middle_changed(middle, m, i) by {
                    if middle.slot(m).is_some() {
                        assert(bit(middle.presence_mask, m));
                        assert(!bit(middle.changed_mask, m));
                    }
                }
            } else {
                assert(!bit(iter, r));
            }
        }
        assert forall|r: u32, m: u32, i: u32| !changed_at(*root, r, m, i) by {
            if root.slot(r).is_some() {
                assert(bit(root.presence_mask, r));
            }
        }
        assert forall|r: u32, m: u32, i: u32|
            value_at(*root, r, m, i) == value_at(*old(root), r, m, i) by {
            if root.slot(r).is_some() {
                assert(bit(root.presence_mask, r));
            } else {
                assert(!bit(old(root).presence_mask, r));
            }
        }
    }
}

/// The number of occupied slots in the leaves at positions below `k` of an interior node.
pub open spec fn middle_count<T>(middle: Middle<T>, k: u32) -> nat
    decreases k,
{
    if k == 0 {
        0
    } else {
        middle_count(middle, (k - 1) as u32) + match middle.slot((k - 1) as u32) {
            Some(inner) => count(inner.presence_mask),
            None => 0,
        }
    }
}

/// The number of occupied slots below the interior nodes at positions below `k` of the root.
pub open spec fn root_count<T>(root: Root<T>, k: u32) -> nat
    decreases k,
{
    if k == 0 {
        0
    } else {
        root_count(root, (k - 1) as u32) + match root.slot((k - 1) as u32) {
            Some(middle) => middle_count(*middle, 128),
            None => 0,
        }
    }
}

/// The part of `middle_count` that comes from leaves that exist and are
/// not full, among the positions below `k`.
spec fn middle_partial<T>(middle: Middle<T>, k: u32) -> nat
    decreases k,
{
    if k == 0 {
        0
    } else {
        middle_partial(middle, (k - 1) as u32) + if bit(middle.presence_mask, (k - 1) as u32)
            && !bit(middle.absence_mask, (k - 1) as u32) {
            count(middle.slot((k - 1) as u32).unwrap().presence_mask)
        } else {
            0
        }
    }
}

/// The part of `root_count` that comes from interior nodes that exist and
/// are not full, among the positions below `k`.
spec fn root_partial<T>(root: Root<T>, k: u32) -> nat
    decreases k,
{
    if k == 0 {
        0
    } else {
        root_partial(root, (k - 1) as u32) + if bit(root.presence_mask, (k - 1) as u32) && !bit(
            root.absence_mask,
            (k - 1) as u32,
        ) {
            middle_count(*root.slot((k - 1) as u32).unwrap(), 128)
        } else {
            0
        }
    }
}

/// Full leaves hold 128 values each; the others are counted one by one.
proof fn lemma_middle_count<T>(middle: Middle<T>, k: u32)
    requires
        middle_ok(middle),
        k <= 128,
    ensures
        middle_count(middle, k) == 128 * count_below(middle.absence_mask, k) + middle_partial(
            middle,
            k,
        ),
        middle_count(middle, k) <= 128 * k,
    decreases k,
{
    if k > 0 {
        let m = (k - 1) as u32;
        lemma_middle_count(middle, m);
        if bit(middle.presence_mask, m) {
            let inner = *middle.slot(m).unwrap();
            assert(inner_ok(inner));
            lemma_count_bounds(inner.presence_mask, 128);
            lemma_full_iff(inner.presence_mask);
        } else {
            assert(!bit(middle.absence_mask, m));
            assert(middle.slot(m).is_none());
        }
    }
}

/// Full interior nodes hold 16384 values each; the others are counted leaf by leaf.
proof fn lemma_root_count<T>(root: Root<T>, k: u32)
    requires
        root_ok(root),
        k <= 128,
    ensures
        root_count(root, k) == 16384 * count_below(root.absence_mask, k) + root_partial(root, k),
        root_count(root, k) <= 16384 * k,
    decreases k,
{
    if k > 0 {
        let r = (k - 1) as u32;
        lemma_root_count(root, r);
        if bit(root.presence_mask, r) {
            let middle = *root.slot(r).unwrap();
            assert(middle_ok(middle));
            lemma_middle_count(middle, 128);
            lemma_count_bounds(middle.absence_mask, 128);
            lemma_full_iff(middle.absence_mask);
            if bit(root.absence_mask, r) {
                assert(middle_partial(middle, 128) == 0) by {
                    lemma_middle_partial_none(middle, 0, 128);
                }
            }
        } else {
            assert(!bit(root.absence_mask, r));
            assert(root.slot(r).is_none());
        }
    }
}

/// Positions without a leaf that exists and is not full add nothing.
proof fn lemma_middle_partial_none<T>(middle: Middle<T>, from: u32, to: u32)
    requires
        from <= to <= 128,
        forall|m: u32|
            from <= m < to ==> !(bit(middle.presence_mask, m) && !bit(middle.absence_mask, m)),
    ensures
        middle_partial(middle, to) == middle_partial(middle, from),
    decreases to - from,
{
    if from < to {
        lemma_middle_partial_none(middle, from, (to - 1) as u32);
    }
}

/// Positions without an interior node that exists and is not full add nothing.
proof fn lemma_root_partial_none<T>(root: Root<T>, from: u32, to: u32)
    requires
        from <= to <= 128,
        forall|r: u32| from <= r < to ==> !(bit(root.presence_mask, r) && !bit(root.absence_mask, r)),
    ensures
        root_partial(root, to) == root_partial(root, from),
    decreases to - from,
{
    if from < to {
        lemma_root_partial_none(root, from, (to - 1) as u32);
    }
}

/// The number of occupied slots below an interior node. Full leaves are
/// counted by the node's absence bits; only the others are visited.
fn middle_len<T>(middle: &Middle<T>) -> (n: usize)
    requires
        middle_ok(*middle),
    ensures
        n == middle_count(*middle, 128),
        n <= 16384,
{
    proof {
        lemma_middle_count(*middle, 128);
        lemma_count_bounds(middle.absence_mask, 128);
        lemma_bit_ops(middle.presence_mask, middle.absence_mask);
    }
    // Count the fully occupied leaves.
    let mut total: usize = middle.absence_mask.count_ones() as usize * 128;
    // Iterate over the partially occupied leaves.
    let mut partial = middle.presence_mask & !middle.absence_mask;
    let mut low: u32 = 0;
    while partial != 0
        invariant
            low <= 128,
            middle_ok(*middle),
            forall|j: u32| j < low ==> !bit(partial, j),
            forall|j: u32|
                #![trigger bit(partial, j)]
                #![trigger bit(middle.presence_mask, j)]
                low <= j ==> bit(partial, j) == (bit(middle.presence_mask, j) && !bit(
                    middle.absence_mask,
                    j,
                )),
            total == 128 * count(middle.absence_mask) + middle_partial(*middle, low),
            middle_count(*middle, 128) == 128 * count(middle.absence_mask) + middle_partial(
                *middle,
                128,
            ),
            middle_count(*middle, 128) <= 16384,
        decreases 128 - low,
    {
        let mi = partial.trailing_zeros();
        proof {
            lemma_middle_partial_none(*middle, low, mi);
            lemma_middle_partial_step(*middle, (mi + 1) as u32);
            assert(bit(middle.presence_mask, mi));
        }
        if let Some(inner) = &middle.data[mi as usize] {
            total = total + inner.absence_mask.count_ones() as usize;
        }
        partial = without_bit(partial, mi);
        low = mi + 1;
    }
    proof {
        lemma_bit_single(0);
        lemma_middle_partial_none(*middle, low, 128);
    }
    total
}

/// The partial count of an interior node never exceeds its count, and
/// grows along the positions.
proof fn lemma_middle_partial_step<T>(middle: Middle<T>, k: u32)
    requires
        middle_ok(middle),
        k <= 128,
    ensures
        middle_partial(middle, k) <= middle_partial(middle, 128),
        middle_partial(middle, 128) <= middle_count(middle, 128),
    decreases 128 - k,
{
    lemma_middle_count(middle, 128);
    if k < 128 {
        lemma_middle_partial_step(middle, (k + 1) as u32);
    }
}

/// The partial count of the root never exceeds its count, and grows along
/// the positions.
proof fn lemma_root_partial_step<T>(root: Root<T>, k: u32)
    requires
        root_ok(root),
        k <= 128,
    ensures
        root_partial(root, k) <= root_partial(root, 128),
        root_partial(root, 128) <= root_count(root, 128),
    decreases 128 - k,
{
    lemma_root_count(root, 128);
    if k < 128 {
        lemma_root_partial_step(root, (k + 1) as u32);
    }
}

/// The number of occupied slots below the root. Full interior nodes are
/// counted by the root's absence bits; only the others are visited.
pub fn root_len<T>(root: &Root<T>) -> (n: usize)
    requires
        root_ok(*root),
    ensures
        n == root_count(*root, 128),
        n <= 2097152,
{
    proof {
        lemma_root_count(*root, 128);
        lemma_count_bounds(root.absence_mask, 128);
        lemma_bit_ops(root.presence_mask, root.absence_mask);
    }
    // Count the fully occupied interior nodes.
    let mut total: usize = root.absence_mask.count_ones() as usize * 16384;
    // Iterate over the partially occupied interior nodes.
    let mut partial = root.presence_mask & !root.absence_mask;
    let mut low: u32 = 0;
    while partial != 0
        invariant
            low <= 128,
            root_ok(*root),
            forall|j: u32| j < low ==> !bit(partial, j),
            forall|j: u32|
                #![trigger bit(partial, j)]
                #![trigger bit(root.presence_mask, j)]
                low <= j ==> bit(partial, j) == (bit(root.presence_mask, j) && !bit(
                    root.absence_mask,
                    j,
                )),
            total == 16384 * count(root.absence_mask) + root_partial(*root, low),
            root_count(*root, 128) == 16384 * count(root.absence_mask) + root_partial(*root, 128),
            root_count(*root, 128) <= 2097152,
        decreases 128 - low,
    {
        let ri = partial.trailing_zeros();
        proof {
            lemma_root_partial_none(*root, low, ri);
            lemma_root_partial_step(*root, (ri + 1) as u32);
            assert(bit(root.presence_mask, ri));
        }
        if let Some(middle) = &root.data[ri as usize] {
            total = total + middle_len(middle);
        }
        partial = without_bit(partial, ri);
        low = ri + 1;
    }
    proof {
        lemma_bit_single(0);
        lemma_root_partial_none(*root, low, 128);
    }
    total
}

} // verus!
