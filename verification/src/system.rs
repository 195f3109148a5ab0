//! The systems that the engine brings along: the removal of destroyed
//! entities and of their components at the end of a tick, and the clearing
//! of the changed masks.

use vstd::prelude::*;
use crate::bits::{bit, FULL, lemma_bit_ops, lemma_bit_single, lemma_empty_iff, lemma_full_iff,
    lowest_run, without_bit, without_range};
use crate::block::Block;
use crate::component::{Component, Destroyed, DESTROYED_TYPE_INDEX, ENTITY_TYPE_INDEX};
use crate::entity::Entity;
use crate::scheduler::{SystemDescriptor, CLEANUP_GROUP, DESTROY_GROUP};
use crate::hierarchy::{CAPACITY, changed_at, inner_index, inner_ok, lemma_decode, Middle,
    middle_changed, middle_index, middle_ok, middle_value, Root, root_index, root_ok, value_at};
use crate::storage::Storage;

verus! {

/// Empty the slots of a leaf whose bits are set in `mask`, and clear their
/// present, occupied and changed bits. The values are dropped run by run.
fn inner_discard<T>(inner: &mut Block<T>, mask: u128)
    requires
        inner_ok(*old(inner)),
        forall|i: u32| bit(mask, i) ==> bit(old(inner).presence_mask, i),
        mask != 0,
    ensures
        inner_ok(*final(inner)),
        forall|i: u32|
            #[trigger] final(inner).slot(i) == (if bit(mask, i) {
                None
            } else {
                old(inner).slot(i)
            }),
        forall|i: u32|
            #[trigger] bit(final(inner).changed_mask, i) == (bit(old(inner).changed_mask, i)
                && !bit(mask, i)),
        final(inner).absence_mask != FULL,
{
    let mut pending = mask;
    let mut low: u32 = 0;
    while pending != 0
        invariant
            low <= 128,
            inner.data@.len() == 128,
            inner.presence_mask == old(inner).presence_mask,
            inner.absence_mask == old(inner).absence_mask,
            inner.changed_mask == old(inner).changed_mask,
            forall|j: u32| j < low ==> !bit(pending, j),
            forall|j: u32| low <= j ==> bit(pending, j) == bit(mask, j),
            forall|i: u32|
                #[trigger] inner.slot(i) == (if bit(mask, i) && i < low {
                    None
                } else {
                    old(inner).slot(i)
                }),
        decreases 128 - low,
    {
        let (start, run) = lowest_run(pending);
        proof {
            assert forall|j: u32| low <= j && j < start implies !bit(mask, j) by {
                assert(!bit(pending, j));
            }
            assert(low <= start) by {
                if start < low {
                    assert(!bit(pending, start));
                }
            }
            assert forall|j: u32|
                #[trigger] inner.slot(j) == (if bit(mask, j) && j < start {
                    None
                } else {
                    old(inner).slot(j)
                }) by {}
        }
        let mut i: u32 = 0;
        while i < run
            invariant
                i <= run,
                start + run <= 128,
                low <= start,
                inner.data@.len() == 128,
                inner.presence_mask == old(inner).presence_mask,
                inner.absence_mask == old(inner).absence_mask,
                inner.changed_mask == old(inner).changed_mask,
                forall|j: u32| j < start ==> !bit(pending, j),
                forall|j: u32| start <= j && j < start + run ==> bit(pending, j),
                forall|j: u32| low <= j ==> bit(pending, j) == bit(mask, j),
                forall|j: u32|
                    #[trigger] inner.slot(j) == (if bit(mask, j) && j < start + i {
                        None
                    } else {
                        old(inner).slot(j)
                    }),
                forall|j: u32| low <= j && j < start ==> !bit(mask, j),
            decreases run - i,
        {
            let ghost before = *inner;
            inner.data[(start + i) as usize] = None;
            proof {
                assert(forall|j: u32| j != start + i ==> inner.slot(j) == before.slot(j));
                assert(bit(pending, (start + i) as u32));
                assert forall|j: u32|
                    #[trigger] inner.slot(j) == (if bit(mask, j) && j < start + i + 1 {
                        None
                    } else {
                        old(inner).slot(j)
                    }) by {
                    assert(before.slot(j) == (if bit(mask, j) && j < start + i {
                        None
                    } else {
                        old(inner).slot(j)
                    }));
                    if j == start + i {
                        assert(bit(mask, j));
                    }
                }
            }
            i += 1;
        }
        proof {
            assert forall|j: u32|
                #[trigger] inner.slot(j) == (if bit(mask, j) && j < start + run {
                    None
                } else {
                    old(inner).slot(j)
                }) by {}
        }
        pending = without_range(pending, start, run);
        low = start + run;
    }
    proof {
        lemma_bit_single(0);
        assert forall|j: u32| #[trigger] inner.slot(j) == (if bit(mask, j) {
            None
        } else {
            old(inner).slot(j)
        }) by {
            if bit(mask, j) && low <= j {
                assert(bit(pending, j));
            }
        }
        lemma_bit_ops(old(inner).presence_mask, mask);
        lemma_bit_ops(old(inner).changed_mask, mask);
        lemma_bit_single(0);
        lemma_empty_iff(mask);
        lemma_full_iff(old(inner).presence_mask & !mask);
        let gone = choose|j: u32| j < 128 && bit(mask, j);
        assert(!bit(old(inner).presence_mask & !mask, gone));
    }
    let ghost emptied = *inner;
    inner.presence_mask = inner.presence_mask & !mask;
    inner.absence_mask = inner.absence_mask & !mask;
    inner.changed_mask = inner.changed_mask & !mask;
    proof {
        assert(forall|j: u32| inner.slot(j) == emptied.slot(j));
        assert forall|j: u32| #[trigger] inner.slot(j) == (if bit(mask, j) {
            None
        } else {
            old(inner).slot(j)
        }) by {
            assert(inner.slot(j) == emptied.slot(j));
        }
        assert(inner.data@.len() == 128);
        assert forall|j: u32|
            #![trigger bit(inner.presence_mask, j)]
            #![trigger inner.slot(j)]
            bit(inner.presence_mask, j) <==> inner.slot(j).is_some() by {
            assert(bit(inner.presence_mask, j) == (bit(old(inner).presence_mask, j) && !bit(mask, j)));
            assert(bit(old(inner).presence_mask, j) <==> old(inner).slot(j).is_some());
        }
        assert(inner.slots_wf());
        assert(inner.absence_mask == inner.presence_mask);
        assert(inner.wf());
    }
}

/// Empty the slots at `mi` below an interior node whose bits are set in
/// `mask`, and bring the node's masks up to date: the leaf is not full any more.
fn middle_discard<T>(middle: &mut Middle<T>, mi: u32, mask: u128)
    requires
        middle_ok(*old(middle)),
        mi < 128,
        mask != 0,
        bit(old(middle).presence_mask, mi),
        forall|i: u32| bit(mask, i) ==> bit(old(middle).slot(mi).unwrap().presence_mask, i),
    ensures
        middle_ok(*final(middle)),
        final(middle).presence_mask == old(middle).presence_mask,
        final(middle).changed_mask == old(middle).changed_mask,
        final(middle).absence_mask != FULL,
        forall|m: u32, i: u32|
            #[trigger] middle_value(*final(middle), m, i) == (if m == mi && bit(mask, i) {
                None
            } else {
                middle_value(*old(middle), m, i)
            }),
        forall|m: u32, i: u32|
            #[trigger] middle_changed(*final(middle), m, i) == (middle_changed(*old(middle), m, i)
                && !(m == mi && bit(mask, i))),
        forall|m: u32| m != mi ==> final(middle).slot(m) == old(middle).slot(m),
{
    let ghost before = *middle;
    match &mut middle.data[mi as usize] {
        None => {},
        Some(inner) => {
            inner_discard(inner, mask);
        },
    }
    middle.absence_mask = without_bit(middle.absence_mask, mi);
    proof {
        crate::bits::lemma_full_absorbs(before.absence_mask, mi);
        assert(forall|m: u32| m != mi ==> middle.slot(m) == before.slot(m));
        assert forall|m: u32| #[trigger] bit(middle.presence_mask, m) implies {
            &&& inner_ok(*middle.slot(m).unwrap())
            &&& bit(middle.absence_mask, m) <==> middle.slot(m).unwrap().absence_mask == FULL
            &&& middle.slot(m).unwrap().changed_mask != 0 ==> bit(middle.changed_mask, m)
        } by {
            if m == mi {
                if middle.slot(m).unwrap().changed_mask != 0 {
                    lemma_empty_iff(middle.slot(m).unwrap().changed_mask);
                    let j = choose|j: u32| j < 128 && bit(middle.slot(m).unwrap().changed_mask, j);
                    assert(bit(before.slot(m).unwrap().changed_mask, j));
                    lemma_bit_single(0);
                }
            }
        }
    }
}

/// Empty the slots at `ri`, `mi` whose bits are set in `mask`, and bring
/// the masks of every level up to date.
pub fn root_discard<T>(root: &mut Root<T>, ri: u32, mi: u32, mask: u128)
    requires
        root_ok(*old(root)),
        ri < 128,
        mi < 128,
        mask != 0,
        bit(old(root).presence_mask, ri),
        bit(old(root).slot(ri).unwrap().presence_mask, mi),
        forall|i: u32|
            bit(mask, i) ==> bit(
                old(root).slot(ri).unwrap().slot(mi).unwrap().presence_mask,
                i,
            ),
    ensures
        root_ok(*final(root)),
        final(root).presence_mask == old(root).presence_mask,
        final(root).changed_mask == old(root).changed_mask,
        forall|r: u32| r != ri ==> final(root).slot(r) == old(root).slot(r),
        final(root).slot(ri).is_some(),
        final(root).slot(ri).unwrap().presence_mask == old(root).slot(ri).unwrap().presence_mask,
        forall|m: u32|
            m != mi ==> final(root).slot(ri).unwrap().slot(m) == old(root).slot(ri).unwrap().slot(m),
        forall|r: u32, m: u32, i: u32|
            #[trigger] value_at(*final(root), r, m, i) == (if r == ri && m == mi && bit(mask, i) {
                None
            } else {
                value_at(*old(root), r, m, i)
            }),
        forall|r: u32, m: u32, i: u32|
            #[trigger] changed_at(*final(root), r, m, i) == (changed_at(*old(root), r, m, i) && !(r
                == ri && m == mi && bit(mask, i))),
{
    let ghost before = *root;
    match &mut root.data[ri as usize] {
        None => {},
        Some(middle) => {
            middle_discard(middle, mi, mask);
        },
    }
    root.absence_mask = without_bit(root.absence_mask, ri);
    proof {
        assert(forall|r: u32| r != ri ==> root.slot(r) == before.slot(r));
        assert forall|r: u32| #[trigger] bit(root.presence_mask, r) implies {
            &&& middle_ok(*root.slot(r).unwrap())
            &&& bit(root.absence_mask, r) <==> root.slot(r).unwrap().absence_mask == FULL
            &&& root.slot(r).unwrap().changed_mask != 0 ==> bit(root.changed_mask, r)
        } by {
            assert(bit(before.presence_mask, r));
        }
    }
}

/// What the slot at `r`, `m`, `i` of a hierarchy holds after the slots
/// that two hierarchies had in common were emptied, as far as the walk has
/// come: the interior nodes below `low`, and of the node at `low` the
/// leaves below `sub`.
pub open spec fn after_discard<T, M>(
    before: Root<T>,
    other: Root<M>,
    low: u32,
    sub: u32,
    r: u32,
    m: u32,
    i: u32,
) -> Option<T> {
    if (r < low || (r == low && m < sub)) && value_at(other, r, m, i).is_some() {
        None
    } else {
        value_at(before, r, m, i)
    }
}

/// Whether the slot at `r`, `m`, `i` of a hierarchy is marked as changed
/// after the slots that two hierarchies had in common were emptied, as far
/// as the walk has come.
pub open spec fn changed_after_discard<T, M>(
    before: Root<T>,
    other: Root<M>,
    low: u32,
    sub: u32,
    r: u32,
    m: u32,
    i: u32,
) -> bool {
    changed_at(before, r, m, i) && !((r < low || (r == low && m < sub)) && value_at(
        other,
        r,
        m,
        i,
    ).is_some())
}

/// The state of one hierarchy during the walk that empties the slots it
/// has in common with another: it is sound, the interior nodes and leaves
/// that exist are those that existed, what the walk has passed is emptied,
/// and what it has not reached is as it was.
pub open spec fn discarding<T, M>(
    now: Root<T>,
    before: Root<T>,
    other: Root<M>,
    low: u32,
    sub: u32,
) -> bool {
    &&& root_ok(now)
    &&& now.presence_mask == before.presence_mask
    &&& now.changed_mask == before.changed_mask
    &&& forall|r: u32|
        #[trigger] bit(now.presence_mask, r) ==> now.slot(r).unwrap().presence_mask == before.slot(
            r,
        ).unwrap().presence_mask
    &&& forall|r: u32| r > low ==> #[trigger] now.slot(r) == before.slot(r)
    &&& forall|m: u32|
        m >= sub && now.slot(low).is_some() ==> #[trigger] now.slot(low).unwrap().slot(m)
            == before.slot(low).unwrap().slot(m)
    &&& forall|r: u32, m: u32, i: u32|
        #[trigger] value_at(now, r, m, i) == after_discard(before, other, low, sub, r, m, i)
    &&& forall|r: u32, m: u32, i: u32|
        #[trigger] changed_at(now, r, m, i) == changed_after_discard(
            before,
            other,
            low,
            sub,
            r,
            m,
            i,
        )
}

/// The presence mask of the interior node at `ri`, empty where there is none.
fn middle_presence<T>(root: &Root<T>, ri: u32) -> (m: u128)
    requires
        root.slots_wf(),
        ri < 128,
    ensures
        m == match root.slot(ri) {
            Some(middle) => middle.presence_mask,
            None => 0,
        },
{
    match &root.data[ri as usize] {
        Some(middle) => middle.presence_mask,
        None => 0,
    }
}

/// The presence mask of the leaf at `ri`, `mi`, empty where there is none.
fn inner_presence<T>(root: &Root<T>, ri: u32, mi: u32) -> (m: u128)
    requires
        root_ok(*root),
        ri < 128,
        mi < 128,
    ensures
        m == match root.slot(ri) {
            Some(middle) => match middle.slot(mi) {
                Some(inner) => inner.presence_mask,
                None => 0,
            },
            None => 0,
        },
{
    proof {
        if root.slot(ri).is_some() {
            assert(bit(root.presence_mask, ri));
        }
    }
    match &root.data[ri as usize] {
        Some(middle) => match &middle.data[mi as usize] {
            Some(inner) => inner.presence_mask,
            None => 0,
        },
        None => 0,
    }
}

/// Empty, in both hierarchies, the slots that they have in common below
/// their interior nodes at `ri`. Only leaves that exist in both are visited.
fn discard_common_below<T, M>(
    target: &mut Root<T>,
    marks: &mut Root<M>,
    ri: u32,
    Ghost(target_before): Ghost<Root<T>>,
    Ghost(marks_before): Ghost<Root<M>>,
)
    requires
        ri < 128,
        root_ok(target_before),
        root_ok(marks_before),
        discarding(*old(target), target_before, marks_before, ri, 0),
        discarding(*old(marks), marks_before, target_before, ri, 0),
        bit(old(target).presence_mask, ri),
        bit(old(marks).presence_mask, ri),
    ensures
        discarding(*final(target), target_before, marks_before, ri, 128),
        discarding(*final(marks), marks_before, target_before, ri, 128),
{
    let target_mask = middle_presence(target, ri);
    let marks_mask = middle_presence(marks, ri);
    proof {
        lemma_bit_ops(target_mask, marks_mask);
    }
    let mut pending = target_mask & marks_mask;
    let ghost common = pending;
    let mut low: u32 = 0;
    while pending != 0
        invariant
            ri < 128,
            low <= 128,
            root_ok(target_before),
            root_ok(marks_before),
            bit(target_before.presence_mask, ri),
            bit(marks_before.presence_mask, ri),
            forall|j: u32|
                #[trigger] bit(common, j) == (bit(target_before.slot(ri).unwrap().presence_mask, j)
                    && bit(marks_before.slot(ri).unwrap().presence_mask, j)),
            forall|j: u32| j < low ==> !bit(pending, j),
            forall|j: u32| low <= j ==> bit(pending, j) == bit(common, j),
            discarding(*target, target_before, marks_before, ri, low),
            discarding(*marks, marks_before, target_before, ri, low),
        decreases 128 - low,
    {
        let mi = pending.trailing_zeros();
        let ghost unvisited = pending;
        pending = without_bit(pending, mi);
        proof {
            assert forall|j: u32| low <= j < mi implies !(bit(
                target_before.slot(ri).unwrap().presence_mask,
                j,
            ) && bit(marks_before.slot(ri).unwrap().presence_mask, j)) by {
                assert(!bit(unvisited, j));
                assert(!bit(common, j));
            }
            assert forall|j: u32| low <= j < mi implies !(bit(
                marks_before.slot(ri).unwrap().presence_mask,
                j,
            ) && bit(target_before.slot(ri).unwrap().presence_mask, j)) by {
                assert(!bit(unvisited, j));
                assert(!bit(common, j));
            }
            lemma_discard_skip(*target, target_before, marks_before, ri, low, mi);
            lemma_discard_skip(*marks, marks_before, target_before, ri, low, mi);
            assert(bit(common, mi));
            assert(bit(target.presence_mask, ri));
            assert(bit(marks.presence_mask, ri));
        }
        let target_leaf = inner_presence(target, ri, mi);
        let marks_leaf = inner_presence(marks, ri, mi);
        proof {
            lemma_bit_ops(target_leaf, marks_leaf);
            lemma_empty_iff(target_leaf & marks_leaf);
            assert(target.slot(ri).unwrap().slot(mi) == target_before.slot(ri).unwrap().slot(mi));
            assert(marks.slot(ri).unwrap().slot(mi) == marks_before.slot(ri).unwrap().slot(mi));
        }
        let mask = target_leaf & marks_leaf;
        if mask != 0 {
            let ghost target_mid = *target;
            let ghost marks_mid = *marks;
            root_discard(target, ri, mi, mask);
            root_discard(marks, ri, mi, mask);
            proof {
                lemma_discard_step(*target, target_mid, target_before, marks_before, ri, mi, mask);
                lemma_discard_step(*marks, marks_mid, marks_before, target_before, ri, mi, mask);
            }
        } else {
            proof {
                lemma_bit_single(0);
                assert forall|i: u32|
                    !(bit(target_before.slot(ri).unwrap().slot(mi).unwrap().presence_mask, i)
                        && bit(marks_before.slot(ri).unwrap().slot(mi).unwrap().presence_mask, i)) by {
                    assert(!bit(mask, i));
                    assert(bit(mask, i) == (bit(target_leaf, i) && bit(marks_leaf, i)));
                }
                assert forall|i: u32|
                    !(bit(marks_before.slot(ri).unwrap().slot(mi).unwrap().presence_mask, i)
                        && bit(target_before.slot(ri).unwrap().slot(mi).unwrap().presence_mask, i)) by {
                    assert(!bit(mask, i));
                    assert(bit(mask, i) == (bit(target_leaf, i) && bit(marks_leaf, i)));
                }
                lemma_discard_none(*target, target_before, marks_before, ri, mi);
                lemma_discard_none(*marks, marks_before, target_before, ri, mi);
            }
        }
        low = mi + 1;
    }
    proof {
        lemma_bit_single(0);
        assert forall|j: u32| low <= j < 128 implies !(bit(
            target_before.slot(ri).unwrap().presence_mask,
            j,
        ) && bit(marks_before.slot(ri).unwrap().presence_mask, j)) by {
            assert(!bit(pending, j));
            assert(!bit(common, j));
        }
        assert forall|j: u32| low <= j < 128 implies !(bit(
            marks_before.slot(ri).unwrap().presence_mask,
            j,
        ) && bit(target_before.slot(ri).unwrap().presence_mask, j)) by {
            assert(!bit(pending, j));
            assert(!bit(common, j));
        }
        lemma_discard_skip(*target, target_before, marks_before, ri, low, 128);
        lemma_discard_skip(*marks, marks_before, target_before, ri, low, 128);
    }
}

/// Empty the slots of `target` that `marks` holds too, below the interior
/// nodes at `ri`. Only leaves that exist in both hierarchies are visited.
fn discard_marked_below<T, M>(
    target: &mut Root<T>,
    marks: &Root<M>,
    ri: u32,
    Ghost(target_before): Ghost<Root<T>>,
)
    requires
        ri < 128,
        root_ok(target_before),
        root_ok(*marks),
        discarding(*old(target), target_before, *marks, ri, 0),
        bit(old(target).presence_mask, ri),
        bit(marks.presence_mask, ri),
    ensures
        discarding(*final(target), target_before, *marks, ri, 128),
{
    let target_mask = middle_presence(target, ri);
    let marks_mask = middle_presence(marks, ri);
    proof {
        lemma_bit_ops(target_mask, marks_mask);
    }
    let mut pending = target_mask & marks_mask;
    let ghost common = pending;
    let mut low: u32 = 0;
    while pending != 0
        invariant
            ri < 128,
            low <= 128,
            root_ok(target_before),
            root_ok(*marks),
            bit(target_before.presence_mask, ri),
            bit(marks.presence_mask, ri),
            forall|j: u32|
                #[trigger] bit(common, j) == (bit(target_before.slot(ri).unwrap().presence_mask, j)
                    && bit(marks.slot(ri).unwrap().presence_mask, j)),
            forall|j: u32| j < low ==> !bit(pending, j),
            forall|j: u32| low <= j ==> bit(pending, j) == bit(common, j),
            discarding(*target, target_before, *marks, ri, low),
        decreases 128 - low,
    {
        let mi = pending.trailing_zeros();
        let ghost unvisited = pending;
        pending = without_bit(pending, mi);
        proof {
            assert forall|j: u32| low <= j < mi implies !(bit(
                target_before.slot(ri).unwrap().presence_mask,
                j,
            ) && bit(marks.slot(ri).unwrap().presence_mask, j)) by {
                assert(!bit(unvisited, j));
                assert(!bit(common, j));
            }
            lemma_discard_skip(*target, target_before, *marks, ri, low, mi);
            assert(bit(common, mi));
            assert(bit(target.presence_mask, ri));
            assert(bit(marks.presence_mask, ri));
        }
        let target_leaf = inner_presence(target, ri, mi);
        let marks_leaf = inner_presence(marks, ri, mi);
        proof {
            lemma_bit_ops(target_leaf, marks_leaf);
            lemma_empty_iff(target_leaf & marks_leaf);
            assert(target.slot(ri).unwrap().slot(mi) == target_before.slot(ri).unwrap().slot(mi));
        }
        let mask = target_leaf & marks_leaf;
        if mask != 0 {
            let ghost target_mid = *target;
            root_discard(target, ri, mi, mask);
            proof {
                lemma_discard_step(*target, target_mid, target_before, *marks, ri, mi, mask);
            }
        } else {
            proof {
                lemma_bit_single(0);
                assert forall|i: u32|
                    !(bit(target_before.slot(ri).unwrap().slot(mi).unwrap().presence_mask, i)
                        && bit(marks.slot(ri).unwrap().slot(mi).unwrap().presence_mask, i)) by {
                    assert(!bit(mask, i));
                    assert(bit(mask, i) == (bit(target_leaf, i) && bit(marks_leaf, i)));
                }
                lemma_discard_none(*target, target_before, *marks, ri, mi);
            }
        }
        low = mi + 1;
    }
    proof {
        lemma_bit_single(0);
        assert forall|j: u32| low <= j < 128 implies !(bit(
            target_before.slot(ri).unwrap().presence_mask,
            j,
        ) && bit(marks.slot(ri).unwrap().presence_mask, j)) by {
            assert(!bit(pending, j));
            assert(!bit(common, j));
        }
        lemma_discard_skip(*target, target_before, *marks, ri, low, 128);
    }
}

/// Leaves that do not exist in both hierarchies hold no slot in common,
/// so the walk may pass them.
proof fn lemma_discard_skip<T, M>(
    now: Root<T>,
    before: Root<T>,
    other: Root<M>,
    ri: u32,
    low: u32,
    next: u32,
)
    requires
        ri < 128,
        low <= next <= 128,
        root_ok(before),
        root_ok(other),
        discarding(now, before, other, ri, low),
        bit(before.presence_mask, ri),
        bit(other.presence_mask, ri),
        forall|j: u32|
            low <= j < next ==> !(bit(before.slot(ri).unwrap().presence_mask, j) && bit(
                other.slot(ri).unwrap().presence_mask,
                j,
            )),
    ensures
        discarding(now, before, other, ri, next),
{
    assert forall|r: u32, m: u32, i: u32|
        #[trigger] value_at(now, r, m, i) == after_discard(before, other, ri, next, r, m, i) by {
        assert(value_at(now, r, m, i) == after_discard(before, other, ri, low, r, m, i));
        if r == ri && low <= m < next {
            lemma_no_common(before, other, ri, m, i);
        }
    }
    assert forall|r: u32, m: u32, i: u32|
        #[trigger] changed_at(now, r, m, i) == changed_after_discard(
            before,
            other,
            ri,
            next,
            r,
            m,
            i,
        ) by {
        assert(changed_at(now, r, m, i) == changed_after_discard(before, other, ri, low, r, m, i));
        if r == ri && low <= m < next {
            lemma_no_common(before, other, ri, m, i);
        }
    }
    assert forall|m: u32|
        m >= next && now.slot(ri).is_some() implies #[trigger] now.slot(ri).unwrap().slot(m)
        == before.slot(ri).unwrap().slot(m) by {}
}

/// A slot that both hierarchies hold lies in a leaf that exists in both;
/// and a slot that is marked as changed is present.
proof fn lemma_no_common<T, M>(
    before: Root<T>,
    other: Root<M>,
    ri: u32,
    m: u32,
    i: u32,
)
    requires
        ri < 128,
        root_ok(before),
        root_ok(other),
        bit(before.presence_mask, ri),
        bit(other.presence_mask, ri),
        !(bit(before.slot(ri).unwrap().presence_mask, m) && bit(
            other.slot(ri).unwrap().presence_mask,
            m,
        )),
    ensures
        !(value_at(before, ri, m, i).is_some() && value_at(other, ri, m, i).is_some()),
        changed_at(before, ri, m, i) ==> value_at(before, ri, m, i).is_some(),
{
    let a = *before.slot(ri).unwrap();
    let b = *other.slot(ri).unwrap();
    assert(middle_ok(a));
    assert(middle_ok(b));
    if a.slot(m).is_some() {
        assert(bit(a.presence_mask, m));
        assert(inner_ok(*a.slot(m).unwrap()));
        if bit(a.slot(m).unwrap().changed_mask, i) {
            assert(bit(a.slot(m).unwrap().presence_mask, i));
        }
    }
    if b.slot(m).is_some() {
        assert(bit(b.presence_mask, m));
    }
}

/// A leaf that exists in both hierarchies but holds no slot in common is passed.
proof fn lemma_discard_none<T, M>(
    now: Root<T>,
    before: Root<T>,
    other: Root<M>,
    ri: u32,
    mi: u32,
)
    requires
        ri < 128,
        mi < 128,
        root_ok(before),
        root_ok(other),
        discarding(now, before, other, ri, mi),
        bit(before.presence_mask, ri),
        bit(other.presence_mask, ri),
        bit(before.slot(ri).unwrap().presence_mask, mi),
        bit(other.slot(ri).unwrap().presence_mask, mi),
        forall|i: u32|
            !(bit(before.slot(ri).unwrap().slot(mi).unwrap().presence_mask, i) && bit(
                other.slot(ri).unwrap().slot(mi).unwrap().presence_mask,
                i,
            )),
    ensures
        discarding(now, before, other, ri, (mi + 1) as u32),
{
    let a = *before.slot(ri).unwrap();
    let b = *other.slot(ri).unwrap();
    assert(middle_ok(a));
    assert(middle_ok(b));
    assert(inner_ok(*a.slot(mi).unwrap()));
    assert(inner_ok(*b.slot(mi).unwrap()));
    assert forall|r: u32, m: u32, i: u32|
        #[trigger] value_at(now, r, m, i) == after_discard(
            before,
            other,
            ri,
            (mi + 1) as u32,
            r,
            m,
            i,
        ) by {
        assert(value_at(now, r, m, i) == after_discard(before, other, ri, mi, r, m, i));
        if r == ri && m == mi {
            assert(!(bit(a.slot(mi).unwrap().presence_mask, i) && bit(
                b.slot(mi).unwrap().presence_mask,
                i,
            )));
        }
    }
    assert forall|r: u32, m: u32, i: u32|
        #[trigger] changed_at(now, r, m, i) == changed_after_discard(
            before,
            other,
            ri,
            (mi + 1) as u32,
            r,
            m,
            i,
        ) by {
        assert(changed_at(now, r, m, i) == changed_after_discard(before, other, ri, mi, r, m, i));
        if r == ri && m == mi {
            assert(!(bit(a.slot(mi).unwrap().presence_mask, i) && bit(
                b.slot(mi).unwrap().presence_mask,
                i,
            )));
            if bit(a.slot(mi).unwrap().changed_mask, i) {
                assert(bit(a.slot(mi).unwrap().presence_mask, i));
            }
        }
    }
    assert forall|m: u32|
        m >= mi + 1 && now.slot(ri).is_some() implies #[trigger] now.slot(ri).unwrap().slot(m)
        == before.slot(ri).unwrap().slot(m) by {}
}

/// Emptying the common slots of the leaf at `ri`, `mi` takes the walk one leaf further.
proof fn lemma_discard_step<T, M>(
    now: Root<T>,
    mid: Root<T>,
    before: Root<T>,
    other: Root<M>,
    ri: u32,
    mi: u32,
    mask: u128,
)
    requires
        ri < 128,
        mi < 128,
        root_ok(before),
        root_ok(other),
        root_ok(now),
        discarding(mid, before, other, ri, mi),
        bit(before.presence_mask, ri),
        bit(other.presence_mask, ri),
        bit(before.slot(ri).unwrap().presence_mask, mi),
        bit(other.slot(ri).unwrap().presence_mask, mi),
        forall|i: u32|
            #[trigger] bit(mask, i) == (bit(
                before.slot(ri).unwrap().slot(mi).unwrap().presence_mask,
                i,
            ) && bit(other.slot(ri).unwrap().slot(mi).unwrap().presence_mask, i)),
        now.presence_mask == mid.presence_mask,
        now.changed_mask == mid.changed_mask,
        forall|r: u32| r != ri ==> now.slot(r) == mid.slot(r),
        now.slot(ri).is_some(),
        now.slot(ri).unwrap().presence_mask == mid.slot(ri).unwrap().presence_mask,
        forall|m: u32| m != mi ==> now.slot(ri).unwrap().slot(m) == mid.slot(ri).unwrap().slot(m),
        forall|r: u32, m: u32, i: u32|
            #[trigger] value_at(now, r, m, i) == (if r == ri && m == mi && bit(mask, i) {
                None
            } else {
                value_at(mid, r, m, i)
            }),
        forall|r: u32, m: u32, i: u32|
            #[trigger] changed_at(now, r, m, i) == (changed_at(mid, r, m, i) && !(r == ri && m
                == mi && bit(mask, i))),
    ensures
        discarding(now, before, other, ri, (mi + 1) as u32),
{
    let a = *before.slot(ri).unwrap();
    let b = *other.slot(ri).unwrap();
    assert(middle_ok(a));
    assert(middle_ok(b));
    assert(inner_ok(*a.slot(mi).unwrap()));
    assert(inner_ok(*b.slot(mi).unwrap()));
    assert forall|r: u32, m: u32, i: u32|
        #[trigger] value_at(now, r, m, i) == after_discard(
            before,
            other,
            ri,
            (mi + 1) as u32,
            r,
            m,
            i,
        ) by {
        assert(value_at(mid, r, m, i) == after_discard(before, other, ri, mi, r, m, i));
        if r == ri && m == mi {
            assert(bit(mask, i) == (bit(a.slot(mi).unwrap().presence_mask, i) && bit(
                b.slot(mi).unwrap().presence_mask,
                i,
            )));
        }
    }
    assert forall|r: u32, m: u32, i: u32|
        #[trigger] changed_at(now, r, m, i) == changed_after_discard(
            before,
            other,
            ri,
            (mi + 1) as u32,
            r,
            m,
            i,
        ) by {
        assert(changed_at(mid, r, m, i) == changed_after_discard(before, other, ri, mi, r, m, i));
        if r == ri && m == mi {
            assert(bit(mask, i) == (bit(a.slot(mi).unwrap().presence_mask, i) && bit(
                b.slot(mi).unwrap().presence_mask,
                i,
            )));
            if bit(a.slot(mi).unwrap().changed_mask, i) {
                assert(bit(a.slot(mi).unwrap().presence_mask, i));
            }
        }
    }
    assert forall|r: u32| #[trigger] bit(now.presence_mask, r) implies now.slot(
        r,
    ).unwrap().presence_mask == before.slot(r).unwrap().presence_mask by {
        assert(bit(mid.presence_mask, r));
    }
    assert forall|m: u32|
        m >= mi + 1 && now.slot(ri).is_some() implies #[trigger] now.slot(ri).unwrap().slot(m)
        == before.slot(ri).unwrap().slot(m) by {
        assert(mid.slot(ri).unwrap().slot(m) == before.slot(ri).unwrap().slot(m));
    }
    assert forall|r: u32| r > ri implies #[trigger] now.slot(r) == before.slot(r) by {
        assert(mid.slot(r) == before.slot(r));
    }
}

/// Interior nodes that do not exist in both hierarchies hold no slot in
/// common, so the walk may pass them.
proof fn lemma_discard_skip_root<T, M>(
    now: Root<T>,
    before: Root<T>,
    other: Root<M>,
    low: u32,
    next: u32,
)
    requires
        low <= next <= 128,
        root_ok(before),
        root_ok(other),
        discarding(now, before, other, low, 0),
        forall|r: u32| low <= r < next ==> !(bit(before.presence_mask, r) && bit(other.presence_mask, r)),
    ensures
        discarding(now, before, other, next, 0),
{
    assert forall|r: u32, m: u32, i: u32|
        #[trigger] value_at(now, r, m, i) == after_discard(before, other, next, 0, r, m, i) by {
        assert(value_at(now, r, m, i) == after_discard(before, other, low, 0, r, m, i));
        if before.slot(r).is_some() {
            assert(bit(before.presence_mask, r));
        }
        if other.slot(r).is_some() {
            assert(bit(other.presence_mask, r));
        }
    }
    assert forall|r: u32, m: u32, i: u32|
        #[trigger] changed_at(now, r, m, i) == changed_after_discard(
            before,
            other,
            next,
            0,
            r,
            m,
            i,
        ) by {
        assert(changed_at(now, r, m, i) == changed_after_discard(before, other, low, 0, r, m, i));
        if before.slot(r).is_some() {
            assert(bit(before.presence_mask, r));
        }
        if other.slot(r).is_some() {
            assert(bit(other.presence_mask, r));
        }
    }
    assert forall|m: u32|
        m >= 0 && now.slot(next).is_some() implies #[trigger] now.slot(next).unwrap().slot(m)
        == before.slot(next).unwrap().slot(m) by {
        if next > low {
            assert(now.slot(next) == before.slot(next));
        }
    }
}

/// With an interior node done, the walk stands before the next one.
proof fn lemma_discard_next_root<T, M>(
    now: Root<T>,
    before: Root<T>,
    other: Root<M>,
    ri: u32,
)
    requires
        ri < 128,
        root_ok(before),
        root_ok(other),
        discarding(now, before, other, ri, 128),
    ensures
        discarding(now, before, other, (ri + 1) as u32, 0),
{
    assert forall|r: u32, m: u32, i: u32|
        #[trigger] value_at(now, r, m, i) == after_discard(
            before,
            other,
            (ri + 1) as u32,
            0,
            r,
            m,
            i,
        ) by {
        assert(value_at(now, r, m, i) == after_discard(before, other, ri, 128, r, m, i));
    }
    assert forall|r: u32, m: u32, i: u32|
        #[trigger] changed_at(now, r, m, i) == changed_after_discard(
            before,
            other,
            (ri + 1) as u32,
            0,
            r,
            m,
            i,
        ) by {
        assert(changed_at(now, r, m, i) == changed_after_discard(before, other, ri, 128, r, m, i));
    }
    assert forall|m: u32|
        m >= 0 && now.slot((ri + 1) as u32).is_some() implies #[trigger] now.slot(
        (ri + 1) as u32,
    ).unwrap().slot(m) == before.slot((ri + 1) as u32).unwrap().slot(m) by {
        assert(now.slot((ri + 1) as u32) == before.slot((ri + 1) as u32));
    }
}

/// A hierarchy stands at the start of the walk as it is.
proof fn lemma_discard_start<T, M>(
    before: Root<T>,
    other: Root<M>,
)
    requires
        root_ok(before),
    ensures
        discarding(before, before, other, 0, 0),
{
}

/// Empty, without a record and in both storages, the slots that the two
/// have in common. The hierarchies are walked in lockstep, and only blocks
/// that exist in both are visited.
pub fn discard_common<T, M>(target: &mut Storage<T>, marks: &mut Storage<M>)
    requires
        old(target).wf(),
        old(marks).wf(),
    ensures
        final(target).wf(),
        final(marks).wf(),
        final(target)@ == old(target)@.without(old(marks)@.slots.dom()),
        final(marks)@ == old(marks)@.without(old(target)@.slots.dom()),
{
    let ghost target_before = target.root;
    let ghost marks_before = marks.root;
    proof {
        lemma_bit_ops(target.root.presence_mask, marks.root.presence_mask);
        lemma_discard_start(target_before, marks_before);
        lemma_discard_start(marks_before, target_before);
    }
    let mut pending = target.root.presence_mask & marks.root.presence_mask;
    let ghost common = pending;
    let mut low: u32 = 0;
    while pending != 0
        invariant
            low <= 128,
            root_ok(target_before),
            root_ok(marks_before),
            forall|j: u32|
                #[trigger] bit(common, j) == (bit(target_before.presence_mask, j) && bit(
                    marks_before.presence_mask,
                    j,
                )),
            forall|j: u32| j < low ==> !bit(pending, j),
            forall|j: u32| low <= j ==> bit(pending, j) == bit(common, j),
            discarding(target.root, target_before, marks_before, low, 0),
            discarding(marks.root, marks_before, target_before, low, 0),
            target.snapshot == old(target).snapshot,
            target.current_tick == old(target).current_tick,
            marks.snapshot == old(marks).snapshot,
            marks.current_tick == old(marks).current_tick,
        decreases 128 - low,
    {
        let ri = pending.trailing_zeros();
        let ghost unvisited = pending;
        pending = without_bit(pending, ri);
        proof {
            assert forall|r: u32| low <= r < ri implies !(bit(target_before.presence_mask, r)
                && bit(marks_before.presence_mask, r)) by {
                assert(!bit(unvisited, r));
                assert(!bit(common, r));
            }
            assert forall|r: u32| low <= r < ri implies !(bit(marks_before.presence_mask, r)
                && bit(target_before.presence_mask, r)) by {
                assert(!bit(unvisited, r));
                assert(!bit(common, r));
            }
            lemma_discard_skip_root(target.root, target_before, marks_before, low, ri);
            lemma_discard_skip_root(marks.root, marks_before, target_before, low, ri);
            assert(bit(common, ri));
        }
        discard_common_below(
            &mut target.root,
            &mut marks.root,
            ri,
            Ghost(target_before),
            Ghost(marks_before),
        );
        proof {
            lemma_discard_next_root(target.root, target_before, marks_before, ri);
            lemma_discard_next_root(marks.root, marks_before, target_before, ri);
        }
        low = ri + 1;
    }
    proof {
        lemma_bit_single(0);
        assert forall|r: u32| low <= r < 128 implies !(bit(target_before.presence_mask, r) && bit(
            marks_before.presence_mask,
            r,
        )) by {
            assert(!bit(pending, r));
            assert(!bit(common, r));
        }
        assert forall|r: u32| low <= r < 128 implies !(bit(marks_before.presence_mask, r) && bit(
            target_before.presence_mask,
            r,
        )) by {
            assert(!bit(pending, r));
            assert(!bit(common, r));
        }
        lemma_discard_skip_root(target.root, target_before, marks_before, low, 128);
        lemma_discarded(*target, *old(target), *old(marks));
        lemma_discard_skip_root(marks.root, marks_before, target_before, low, 128);
        lemma_discarded(*marks, *old(marks), *old(target));
    }
}

/// Empty, without a record, the slots of `target` that `marks` holds
/// too. The hierarchies are walked in lockstep, and only blocks that exist
/// in both are visited.
pub fn discard_marked<T, M>(target: &mut Storage<T>, marks: &Storage<M>)
    requires
        old(target).wf(),
        marks.wf(),
    ensures
        final(target).wf(),
        final(target)@ == old(target)@.without(marks@.slots.dom()),
{
    let ghost target_before = target.root;
    let ghost marks_before = marks.root;
    proof {
        lemma_bit_ops(target.root.presence_mask, marks.root.presence_mask);
        lemma_discard_start(target_before, marks_before);
    }
    let mut pending = target.root.presence_mask & marks.root.presence_mask;
    let ghost common = pending;
    let mut low: u32 = 0;
    while pending != 0
        invariant
            low <= 128,
            root_ok(target_before),
            root_ok(marks_before),
            marks_before == marks.root,
            forall|j: u32|
                #[trigger] bit(common, j) == (bit(target_before.presence_mask, j) && bit(
                    marks_before.presence_mask,
                    j,
                )),
            forall|j: u32| j < low ==> !bit(pending, j),
            forall|j: u32| low <= j ==> bit(pending, j) == bit(common, j),
            discarding(target.root, target_before, marks_before, low, 0),
            target.snapshot == old(target).snapshot,
            target.current_tick == old(target).current_tick,
        decreases 128 - low,
    {
        let ri = pending.trailing_zeros();
        let ghost unvisited = pending;
        pending = without_bit(pending, ri);
        proof {
            assert forall|r: u32| low <= r < ri implies !(bit(target_before.presence_mask, r)
                && bit(marks_before.presence_mask, r)) by {
                assert(!bit(unvisited, r));
                assert(!bit(common, r));
            }
            lemma_discard_skip_root(target.root, target_before, marks_before, low, ri);
            assert(bit(common, ri));
        }
        discard_marked_below(&mut target.root, &marks.root, ri, Ghost(target_before));
        proof {
            lemma_discard_next_root(target.root, target_before, marks_before, ri);
        }
        low = ri + 1;
    }
    proof {
        lemma_bit_single(0);
        assert forall|r: u32| low <= r < 128 implies !(bit(target_before.presence_mask, r) && bit(
            marks_before.presence_mask,
            r,
        )) by {
            assert(!bit(pending, r));
            assert(!bit(common, r));
        }
        lemma_discard_skip_root(target.root, target_before, marks_before, low, 128);
        lemma_discarded(*target, *old(target), *marks);
    }
}

/// At the end of the walk the storage is what it was without the slots
/// that the other storage holds.
proof fn lemma_discarded<T, M>(now: Storage<T>, before: Storage<T>, other: Storage<M>)
    requires
        before.wf(),
        root_ok(other.root),
        discarding(now.root, before.root, other.root, 128, 0),
        now.snapshot == before.snapshot,
        now.current_tick == before.current_tick,
    ensures
        now.wf(),
        now@ == before@.without(other@.slots.dom()),
{
    let model = before@.without(other@.slots.dom());
    assert forall|index: u32| now.slot(index) == (if other.slot(index).is_some() {
        None
    } else {
        before.slot(index)
    }) && now.changed(index) == (before.changed(index) && !other.slot(index).is_some()) by {
        if index < CAPACITY {
            lemma_decode(index);
            let r = root_index(index);
            let m = middle_index(index);
            let i = inner_index(index);
            assert(value_at(now.root, r, m, i) == after_discard(before.root, other.root, 128, 0, r, m, i));
            assert(changed_at(now.root, r, m, i) == changed_after_discard(
                before.root,
                other.root,
                128,
                0,
                r,
                m,
                i,
            ));
        }
    }
    assert(now@.slots =~= model.slots);
    assert(now@.changed =~= model.changed);
}

/// Identity of the system that removes destroyed entities.
pub const DESTROY_SYSTEM: u64 = 0xFFFF_FFFF_FFFF_FFE0;

/// Base of the identities of the systems that remove the components of
/// destroyed entities: the system for a component type has this identity
/// plus the component's type index.
pub const CLEANUP_SYSTEM_BASE: u64 = 0xFFFF_FFFF_FFFF_0000;

/// The system that physically removes the entities that carry the
/// `Destroyed` tag, together with the tag.
pub struct DestroySystem {}

impl DestroySystem {
    /// The system; it holds no state of its own.
    pub fn create() -> (system: DestroySystem)
        ensures
            system == (DestroySystem {  }),
    {
        DestroySystem {  }
    }

    /// Remove every entity that carries the `Destroyed` tag, and the tag
    /// with it. Nothing is recorded for rollback.
    pub fn run(&self, entities: &mut Storage<Entity>, destroyed: &mut Storage<Destroyed>)
        requires
            old(entities).wf(),
            old(destroyed).wf(),
        ensures
            final(entities).wf(),
            final(destroyed).wf(),
            final(entities)@ == old(entities)@.without(old(destroyed)@.slots.dom()),
            final(destroyed)@ == old(destroyed)@.without(old(entities)@.slots.dom()),
    {
        discard_common(entities, destroyed);
    }

    /// What the scheduler needs to know of the system: it belongs to the
    /// destroy group, reads nothing, and writes the entities and the tags.
    pub fn descriptor(&self) -> (d: SystemDescriptor)
        ensures
            d.type_id == DESTROY_SYSTEM,
            d.parent == Some(DESTROY_GROUP),
            d.after@.len() == 0,
            d.before@.len() == 0,
            d.reads@.len() == 0,
            d.writes@ == seq![ENTITY_TYPE_INDEX as u64, DESTROYED_TYPE_INDEX as u64],
    {
        let mut writes: Vec<u64> = Vec::new();
        writes.push(ENTITY_TYPE_INDEX as u64);
        writes.push(DESTROYED_TYPE_INDEX as u64);
        proof {
            assert(writes@ =~= seq![ENTITY_TYPE_INDEX as u64, DESTROYED_TYPE_INDEX as u64]);
        }
        SystemDescriptor {
            type_id: DESTROY_SYSTEM,
            parent: Some(DESTROY_GROUP),
            after: Vec::new(),
            before: Vec::new(),
            reads: Vec::new(),
            writes,
        }
    }
}

/// The system that clears the changed masks of the storage of one component type.
pub struct ChangedMaskCleanupSystem<T: Component> {
    pub component: core::marker::PhantomData<T>,
}

impl<T: Component> ChangedMaskCleanupSystem<T> {
    /// The system; it holds no state of its own.
    pub fn create() -> (system: Self)
        ensures
            system == (ChangedMaskCleanupSystem::<T> { component: core::marker::PhantomData }),
    {
        ChangedMaskCleanupSystem { component: core::marker::PhantomData }
    }

    /// Clear the changed bits of `storage` on every level.
    pub fn run(&self, storage: &mut Storage<T>)
        requires
            old(storage).wf(),
        ensures
            final(storage).wf(),
            final(storage)@ == old(storage)@.clear_changes(),
    {
        storage.clear_changes();
    }
}

/// The system that removes the components of one type from the entities
/// that carry the `Destroyed` tag, and then clears the changed masks of that
/// component's storage.
pub struct ComponentCleanupSystem<T: Component> {
    pub component: core::marker::PhantomData<T>,
}

impl<T: Component> ComponentCleanupSystem<T> {
    /// The system; it holds no state of its own.
    pub fn create() -> (system: Self)
        ensures
            system == (ComponentCleanupSystem::<T> { component: core::marker::PhantomData }),
    {
        ComponentCleanupSystem { component: core::marker::PhantomData }
    }

    /// Remove the component from every entity that carries the
    /// `Destroyed` tag, without a record for rollback, and clear the changed
    /// bits of `storage` on every level.
    pub fn run(&self, storage: &mut Storage<T>, destroyed: &Storage<Destroyed>)
        requires
            old(storage).wf(),
            destroyed.wf(),
        ensures
            final(storage).wf(),
            final(storage)@ == old(storage)@.without(destroyed@.slots.dom()).clear_changes(),
    {
        discard_marked(storage, destroyed);
        storage.clear_changes();
    }

    /// What the scheduler needs to know of the system for the component
    /// type with identity `component`: it belongs to the cleanup group, reads
    /// the tags, and writes the component.
    pub fn descriptor(&self, component: u64) -> (d: SystemDescriptor)
        ensures
            d.type_id == CLEANUP_SYSTEM_BASE | (component & 0xFFFF),
            d.parent == Some(CLEANUP_GROUP),
            d.after@.len() == 0,
            d.before@.len() == 0,
            d.reads@ == seq![DESTROYED_TYPE_INDEX as u64],
            d.writes@ == seq![component],
    {
        let mut reads: Vec<u64> = Vec::new();
        reads.push(DESTROYED_TYPE_INDEX as u64);
        let mut writes: Vec<u64> = Vec::new();
        writes.push(component);
        proof {
            assert(reads@ =~= seq![DESTROYED_TYPE_INDEX as u64]);
            assert(writes@ =~= seq![component]);
        }
        SystemDescriptor {
            type_id: CLEANUP_SYSTEM_BASE | (component & 0xFFFF),
            parent: Some(CLEANUP_GROUP),
            after: Vec::new(),
            before: Vec::new(),
            reads,
            writes,
        }
    }
}

} // verus!
