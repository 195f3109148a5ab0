//! The rollback walk: the live hierarchy is brought back, level by level,
//! to what the oldest of the popped snapshots says it was.

use vstd::prelude::*;
use crate::bits::{bit, FULL, has_bit, with_bit, without_bit, lemma_bit_ops, lemma_bit_single};
use crate::block::{Block, RollbackBlock};
use crate::component::Component;
use crate::history::{Delta, oldest_record, pop_count};
use crate::hierarchy::{CAPACITY, changed_at, inner_index, inner_ok, Middle, middle_changed,
    middle_index, middle_ok, middle_value, Root, root_index, root_ok, value_at};
use crate::snapshot::{middle_delta_ok, MiddleDelta, RollbackStorage, root_delta_ok, RootDelta};

verus! {

/// Whether a leaf delta says anything of slot `ii`.
pub open spec fn leaf_records<T>(leaf: RollbackBlock<T>, ii: u32) -> bool {
    bit(leaf.updated_mask, ii) || bit(leaf.added_mask, ii)
}

/// What the oldest of the leaf deltas `leaves` (most recent first) that
/// records slot `ii` says the slot held before: `None` where no delta
/// records the slot, `Some(None)` where the slot was absent.
pub open spec fn leaf_oldest<T>(leaves: Seq<&RollbackBlock<T>>, ii: u32) -> Option<Option<T>>
    decreases leaves.len(),
{
    if leaves.len() == 0 {
        None
    } else if leaf_records(*leaves.last(), ii) {
        Some(leaves.last().slot(ii))
    } else {
        leaf_oldest(leaves.drop_last(), ii)
    }
}

/// No delta among `leaves` records a slot of which none of them has a bit set.
proof fn lemma_leaf_oldest_none<T>(leaves: Seq<&RollbackBlock<T>>, ii: u32)
    requires
        forall|k: int| 0 <= k < leaves.len() ==> !leaf_records(*#[trigger] leaves[k], ii),
    ensures
        leaf_oldest(leaves, ii).is_none(),
    decreases leaves.len(),
{
    if leaves.len() > 0 {
        assert(!leaf_records(*leaves[leaves.len() - 1], ii));
        lemma_leaf_oldest_none(leaves.drop_last(), ii);
    }
}

/// The oldest record of a slot is that of the last delta that records it.
proof fn lemma_leaf_oldest_at<T>(leaves: Seq<&RollbackBlock<T>>, ii: u32, k: int)
    requires
        0 <= k < leaves.len(),
        leaf_records(*leaves[k], ii),
        forall|j: int| k < j < leaves.len() ==> !leaf_records(*#[trigger] leaves[j], ii),
    ensures
        leaf_oldest(leaves, ii) == Some(leaves[k].slot(ii)),
    decreases leaves.len(),
{
    if k < leaves.len() - 1 {
        assert(!leaf_records(*leaves[leaves.len() - 1], ii));
        lemma_leaf_oldest_at(leaves.drop_last(), ii, k);
    }
}

/// The union of the updated masks and the union of the added masks of `leaves`.
fn union_masks<T>(leaves: &Vec<&RollbackBlock<T>>) -> (r: (u128, u128))
    ensures
        forall|i: u32|
            bit(r.0, i) <==> exists|k: int|
                0 <= k < leaves@.len() && bit((#[trigger] leaves@[k]).updated_mask, i),
        forall|i: u32|
            bit(r.1, i) <==> exists|k: int|
                0 <= k < leaves@.len() && bit((#[trigger] leaves@[k]).added_mask, i),
{
    let mut all_updated: u128 = 0;
    let mut all_added: u128 = 0;
    let mut k: usize = 0;
    proof {
        lemma_bit_single(0);
    }
    while k < leaves.len()
        invariant
            k <= leaves@.len(),
            forall|i: u32|
                bit(all_updated, i) <==> exists|j: int|
                    0 <= j < k && bit((#[trigger] leaves@[j]).updated_mask, i),
            forall|i: u32|
                bit(all_added, i) <==> exists|j: int|
                    0 <= j < k && bit((#[trigger] leaves@[j]).added_mask, i),
        decreases leaves@.len() - k,
    {
        let leaf = leaves[k];
        let ghost prev_updated = all_updated;
        let ghost prev_added = all_added;
        proof {
            lemma_bit_ops(all_updated, leaf.updated_mask);
            lemma_bit_ops(all_added, leaf.added_mask);
        }
        all_updated = all_updated | leaf.updated_mask;
        all_added = all_added | leaf.added_mask;
        proof {
            assert forall|i: u32|
                bit(all_updated, i) <==> exists|j: int|
                    0 <= j < k + 1 && bit((#[trigger] leaves@[j]).updated_mask, i) by {
                if bit(all_updated, i) {
                    if bit(prev_updated, i) {
                        let j = choose|j: int|
                            0 <= j < k && bit((#[trigger] leaves@[j]).updated_mask, i);
                        assert(bit(leaves@[j].updated_mask, i));
                    } else {
                        assert(bit(leaves@[k as int].updated_mask, i));
                    }
                }
                if exists|j: int| 0 <= j < k + 1 && bit((#[trigger] leaves@[j]).updated_mask, i) {
                    let j = choose|j: int|
                        0 <= j < k + 1 && bit((#[trigger] leaves@[j]).updated_mask, i);
                    if j < k {
                        assert(bit(prev_updated, i));
                    }
                }
            }
            assert forall|i: u32|
                bit(all_added, i) <==> exists|j: int|
                    0 <= j < k + 1 && bit((#[trigger] leaves@[j]).added_mask, i) by {
                if bit(all_added, i) {
                    if bit(prev_added, i) {
                        let j = choose|j: int|
                            0 <= j < k && bit((#[trigger] leaves@[j]).added_mask, i);
                        assert(bit(leaves@[j].added_mask, i));
                    } else {
                        assert(bit(leaves@[k as int].added_mask, i));
                    }
                }
                if exists|j: int| 0 <= j < k + 1 && bit((#[trigger] leaves@[j]).added_mask, i) {
                    let j = choose|j: int|
                        0 <= j < k + 1 && bit((#[trigger] leaves@[j]).added_mask, i);
                    if j < k {
                        assert(bit(prev_added, i));
                    }
                }
            }
        }
        k += 1;
    }
    (all_updated, all_added)
}

/// What slot `ii` of a leaf holds after the leaf deltas `leaves` were
/// rolled back: what the oldest delta that records the slot says, and what
/// the leaf held where none records it.
pub open spec fn leaf_restored<T>(leaves: Seq<&RollbackBlock<T>>, before: Block<T>, ii: u32)
    -> Option<T> {
    match leaf_oldest(leaves, ii) {
        Some(pre) => pre,
        None => before.slot(ii),
    }
}

/// The oldest of `leaves` (most recent first) that records slot `ii`.
fn oldest_recording<'a, T>(leaves: &Vec<&'a RollbackBlock<T>>, ii: u32) -> (r: Option<
    &'a RollbackBlock<T>,
>)
    requires
        ii < 128,
        forall|k: int| 0 <= k < leaves@.len() ==> (#[trigger] leaves@[k]).wf(),
    ensures
        match r {
            Some(leaf) => leaf.wf() && leaf_records(*leaf, ii) && leaf_oldest(leaves@, ii) == Some(
                leaf.slot(ii),
            ),
            None => leaf_oldest(leaves@, ii).is_none(),
        },
{
    let mut k: usize = leaves.len();
    while k > 0
        invariant
            k <= leaves@.len(),
            ii < 128,
            forall|k: int| 0 <= k < leaves@.len() ==> (#[trigger] leaves@[k]).wf(),
            forall|j: int| k <= j < leaves@.len() ==> !leaf_records(*#[trigger] leaves@[j], ii),
        decreases k,
    {
        k -= 1;
        let leaf = leaves[k];
        if has_bit(leaf.updated_mask, ii) || has_bit(leaf.added_mask, ii) {
            proof {
                lemma_leaf_oldest_at(leaves@, ii, k as int);
            }
            return Some(leaf);
        }
    }
    proof {
        lemma_leaf_oldest_none(leaves@, ii);
    }
    None
}

/// Roll the leaf deltas `leaves` (most recent first) back on a leaf.
///
/// A slot that some delta marks as added and none as updated is dropped. A
/// slot that some delta marks as updated goes by the oldest delta that
/// records it: where that one only marks it as added, the slot is dropped,
/// and otherwise the saved pre-image is cloned back, once. The changed bit
/// of every slot that is touched is cleared.
pub fn inner_rollback<T: Component>(leaves: &Vec<&RollbackBlock<T>>, inner: &mut Block<T>)
    requires
        inner_ok(*old(inner)),
        forall|k: int| 0 <= k < leaves@.len() ==> (#[trigger] leaves@[k]).wf(),
    ensures
        inner_ok(*final(inner)),
        forall|i: u32| final(inner).slot(i) == leaf_restored(leaves@, *old(inner), i),
        forall|i: u32|
            bit(final(inner).changed_mask, i) == (bit(old(inner).changed_mask, i) && leaf_oldest(
                leaves@,
                i,
            ).is_none()),
{
    let (all_updated, all_added) = union_masks(leaves);
    proof {
        lemma_bit_ops(all_added, all_updated);
    }
    // Additions: a slot that was added and never updated did not exist.
    let mut added = all_added & !all_updated;
    let ghost added_only = added;
    let mut low: u32 = 0;
    while added != 0
        invariant
            low <= 128,
            inner_ok(*inner),
            forall|j: u32| j < low ==> !bit(added, j),
            forall|j: u32| bit(added, j) ==> bit(added_only, j),
            forall|j: u32| bit(added_only, j) && low <= j ==> bit(added, j),
            forall|i: u32|
                bit(added_only, i) && i < low ==> (#[trigger] inner.slot(i)).is_none(),
            forall|i: u32|
                bit(added_only, i) && i < low ==> !#[trigger] bit(inner.changed_mask, i),
            forall|i: u32|
                !(bit(added_only, i) && i < low) ==> #[trigger] inner.slot(i) == old(inner).slot(i),
            forall|i: u32|
                !(bit(added_only, i) && i < low) ==> #[trigger] bit(inner.changed_mask, i) == bit(
                    old(inner).changed_mask,
                    i,
                ),
        decreases 128 - low,
    {
        let i = added.trailing_zeros();
        let ghost prev = *inner;
        let ghost prev_added = added;
        added = without_bit(added, i);
        inner.data[i as usize] = None;
        inner.presence_mask = without_bit(inner.presence_mask, i);
        inner.absence_mask = without_bit(inner.absence_mask, i);
        inner.changed_mask = without_bit(inner.changed_mask, i);
        proof {
            assert(forall|j: u32| j != i ==> inner.slot(j) == prev.slot(j));
            assert(inner.slot(i).is_none());
            assert forall|j: u32| bit(added_only, j) && j < i + 1 implies (
            #[trigger] inner.slot(j)).is_none() by {
                if j != i {
                    if low <= j {
                        assert(bit(prev_added, j));
                    }
                    assert(prev.slot(j).is_none());
                }
            }
            assert forall|j: u32| !(bit(added_only, j) && j < i + 1) implies #[trigger] inner.slot(
                j,
            ) == old(inner).slot(j) by {
                assert(prev.slot(j) == old(inner).slot(j));
            }
        }
        low = i + 1;
    }
    // Updates: each slot goes by the oldest delta that records it.
    let mut updated = all_updated;
    let ghost halfway = *inner;
    proof {
        lemma_bit_single(0);
        assert forall|i: u32| bit(added_only, i) implies halfway.slot(i).is_none() && !bit(
            halfway.changed_mask,
            i,
        ) by {
            if low <= i {
                assert(bit(added, i));
            }
        }
    }
    let mut low: u32 = 0;
    while updated != 0
        invariant
            low <= 128,
            inner_ok(*inner),
            forall|k: int| 0 <= k < leaves@.len() ==> (#[trigger] leaves@[k]).wf(),
            forall|j: u32| j < low ==> !bit(updated, j),
            forall|j: u32| bit(updated, j) ==> bit(all_updated, j),
            forall|j: u32| bit(all_updated, j) && low <= j ==> bit(updated, j),
            forall|i: u32|
                bit(all_updated, i) <==> exists|k: int|
                    0 <= k < leaves@.len() && bit((#[trigger] leaves@[k]).updated_mask, i),
            forall|i: u32|
                bit(all_added, i) <==> exists|k: int|
                    0 <= k < leaves@.len() && bit((#[trigger] leaves@[k]).added_mask, i),
            forall|i: u32| #[trigger]
                bit(added_only, i) == (bit(all_added, i) && !bit(all_updated, i)),
            forall|i: u32|
                bit(added_only, i) ==> (#[trigger] halfway.slot(i)).is_none() && !bit(
                    halfway.changed_mask,
                    i,
                ),
            forall|i: u32|
                !bit(added_only, i) ==> #[trigger] halfway.slot(i) == old(inner).slot(i) && bit(
                    halfway.changed_mask,
                    i,
                ) == bit(old(inner).changed_mask, i),
            forall|i: u32|
                bit(all_updated, i) && i < low ==> #[trigger] inner.slot(i) == leaf_restored(
                    leaves@,
                    *old(inner),
                    i,
                ),
            forall|i: u32|
                bit(all_updated, i) && i < low ==> !#[trigger] bit(inner.changed_mask, i),
            forall|i: u32|
                bit(all_updated, i) && i < low ==> leaf_oldest(leaves@, i).is_some(),
            forall|i: u32|
                !(bit(all_updated, i) && i < low) ==> #[trigger] inner.slot(i) == halfway.slot(i),
            forall|i: u32|
                !(bit(all_updated, i) && i < low) ==> #[trigger] bit(inner.changed_mask, i) == bit(
                    halfway.changed_mask,
                    i,
                ),
        decreases 128 - low,
    {
        let i = updated.trailing_zeros();
        let ghost prev = *inner;
        let ghost prev_updated = updated;
        updated = without_bit(updated, i);
        match oldest_recording(leaves, i) {
            Some(leaf) => {
                if has_bit(leaf.updated_mask, i) {
                    // The slot existed: clone the pre-image back, once.
                    if let Some(saved) = &leaf.data[i as usize] {
                        let restored = saved.clone();
                        proof {
                            T::clone_is_faithful(*saved, restored);
                        }
                        inner.data[i as usize] = Some(restored);
                    }
                    inner.presence_mask = with_bit(inner.presence_mask, i);
                    inner.absence_mask = with_bit(inner.absence_mask, i);
                } else {
                    // The oldest delta only marks the slot as added: it did not exist.
                    inner.data[i as usize] = None;
                    inner.presence_mask = without_bit(inner.presence_mask, i);
                    inner.absence_mask = without_bit(inner.absence_mask, i);
                }
            },
            None => {
                proof {
                    let k = choose|k: int|
                        0 <= k < leaves@.len() && bit((#[trigger] leaves@[k]).updated_mask, i);
                    lemma_leaf_recorded(leaves@, i, k);
                }
            },
        }
        inner.changed_mask = without_bit(inner.changed_mask, i);
        proof {
            assert(forall|j: u32| j != i ==> inner.slot(j) == prev.slot(j));
            assert(inner.slot(i) == leaf_restored(leaves@, *old(inner), i));
            assert forall|j: u32| bit(all_updated, j) && j < i + 1 implies #[trigger] inner.slot(j)
                == leaf_restored(leaves@, *old(inner), j) by {
                if j != i {
                    if low <= j {
                        assert(bit(prev_updated, j));
                    }
                    assert(prev.slot(j) == leaf_restored(leaves@, *old(inner), j));
                }
            }
            assert forall|j: u32| !(bit(all_updated, j) && j < i + 1) implies #[trigger] inner.slot(
                j,
            ) == halfway.slot(j) by {
                assert(prev.slot(j) == halfway.slot(j));
            }
        }
        low = i + 1;
    }
    proof {
        lemma_bit_single(0);
        assert forall|i: u32| bit(all_updated, i) implies i < low by {
            if low <= i {
                assert(bit(updated, i));
            }
        }
        assert forall|i: u32| inner.slot(i) == leaf_restored(leaves@, *old(inner), i) by {
            if i >= 128 {
                lemma_leaf_oldest_none(leaves@, i);
            } else if !bit(all_updated, i) {
                assert(inner.slot(i) == halfway.slot(i));
                if bit(added_only, i) {
                    let k = choose|k: int|
                        0 <= k < leaves@.len() && bit((#[trigger] leaves@[k]).added_mask, i);
                    lemma_leaf_added_only(leaves@, i, k);
                } else {
                    lemma_leaf_oldest_none(leaves@, i);
                }
            }
        }
        assert forall|i: u32|
            bit(inner.changed_mask, i) == (bit(old(inner).changed_mask, i) && leaf_oldest(
                leaves@,
                i,
            ).is_none()) by {
            if i < 128 {
                if bit(all_updated, i) {
                } else if bit(added_only, i) {
                    let k = choose|k: int|
                        0 <= k < leaves@.len() && bit((#[trigger] leaves@[k]).added_mask, i);
                    lemma_leaf_added_only(leaves@, i, k);
                } else {
                    lemma_leaf_oldest_none(leaves@, i);
                }
            }
        }
    }
}

/// A slot that some delta records has an oldest record.
proof fn lemma_leaf_recorded<T>(leaves: Seq<&RollbackBlock<T>>, ii: u32, k: int)
    requires
        0 <= k < leaves.len(),
        leaf_records(*leaves[k], ii),
    ensures
        leaf_oldest(leaves, ii).is_some(),
    decreases leaves.len(),
{
    if !leaf_records(*leaves.last(), ii) {
        lemma_leaf_recorded(leaves.drop_last(), ii, k);
    }
}

/// A slot that some delta marks as added and none as updated was absent.
proof fn lemma_leaf_added_only<T>(leaves: Seq<&RollbackBlock<T>>, ii: u32, k: int)
    requires
        0 <= k < leaves.len(),
        bit(leaves[k].added_mask, ii),
        forall|j: int| 0 <= j < leaves.len() ==> !bit((#[trigger] leaves[j]).updated_mask, ii),
        forall|j: int| 0 <= j < leaves.len() ==> (#[trigger] leaves[j]).wf(),
    ensures
        leaf_oldest(leaves, ii) == Some(None::<T>),
    decreases leaves.len(),
{
    assert(!bit(leaves[leaves.len() - 1].updated_mask, ii));
    assert(leaves[leaves.len() - 1].wf());
    if !leaf_records(*leaves.last(), ii) {
        lemma_leaf_added_only(leaves.drop_last(), ii, k);
    }
}

/// The children at position `i` of those of the interior deltas
/// `parents` (most recent first) that have one, in the same order.
pub open spec fn children_of<U>(parents: Seq<&RollbackBlock<Box<U>>>, i: u32) -> Seq<&U>
    decreases parents.len(),
{
    if parents.len() == 0 {
        Seq::empty()
    } else {
        let rest = children_of(parents.drop_last(), i);
        match parents.last().slot(i) {
            Some(child) => rest.push(&*child),
            None => rest,
        }
    }
}

/// Every child among `children_of(parents, i)` is a child at `i` of one of `parents`.
proof fn lemma_children_from<U>(parents: Seq<&RollbackBlock<Box<U>>>, i: u32, k: int)
    requires
        0 <= k < children_of(parents, i).len(),
    ensures
        exists|j: int|
            0 <= j < parents.len() && (#[trigger] parents[j]).slot(i) == Some(
                Box::new(*children_of(parents, i)[k]),
            ),
    decreases parents.len(),
{
    let rest = children_of(parents.drop_last(), i);
    if k < rest.len() {
        lemma_children_from(parents.drop_last(), i, k);
        let j = choose|j: int|
            0 <= j < parents.drop_last().len() && (#[trigger] parents.drop_last()[j]).slot(i)
                == Some(Box::new(*rest[k]));
        assert(parents[j] == parents.drop_last()[j]);
    } else {
        assert(parents[parents.len() - 1].slot(i) == Some(Box::new(*children_of(parents, i)[k])));
    }
}

/// Where none of `parents` has a child at `i`, there are no children.
proof fn lemma_children_none<U>(parents: Seq<&RollbackBlock<Box<U>>>, i: u32)
    requires
        forall|j: int| 0 <= j < parents.len() ==> (#[trigger] parents[j]).slot(i).is_none(),
    ensures
        children_of(parents, i).len() == 0,
    decreases parents.len(),
{
    if parents.len() > 0 {
        assert(parents[parents.len() - 1].slot(i).is_none());
        lemma_children_none(parents.drop_last(), i);
    }
}

/// The children at position `i` of those of `parents` that have one.
fn collect_children<'a, U>(parents: &Vec<&'a RollbackBlock<Box<U>>>, i: u32) -> (children: Vec<
    &'a U,
>)
    requires
        i < 128,
        forall|k: int| 0 <= k < parents@.len() ==> (#[trigger] parents@[k]).wf(),
    ensures
        children@ == children_of(parents@, i),
{
    let mut children: Vec<&'a U> = Vec::with_capacity(parents.len());
    let mut k: usize = 0;
    while k < parents.len()
        invariant
            i < 128,
            k <= parents@.len(),
            forall|k: int| 0 <= k < parents@.len() ==> (#[trigger] parents@[k]).wf(),
            children@ == children_of(parents@.take(k as int), i),
        decreases parents@.len() - k,
    {
        let parent = parents[k];
        proof {
            assert(parents@.take(k + 1).drop_last() =~= parents@.take(k as int));
            assert(parents@.take(k + 1).last() == parents@[k as int]);
        }
        if let Some(child) = &parent.data[i as usize] {
            children.push(&**child);
        }
        k += 1;
    }
    proof {
        assert(parents@.take(k as int) =~= parents@);
    }
    children
}

/// What the oldest of the interior deltas `middles` that records the slot
/// at `mi`, `ii` says the slot held before.
pub open spec fn middle_oldest<T>(
    middles: Seq<&MiddleDelta<T>>,
    mi: u32,
    ii: u32,
) -> Option<Option<T>> {
    leaf_oldest(children_of(middles, mi), ii)
}

/// What the oldest of the snapshot roots `roots` that records the slot at
/// `ri`, `mi`, `ii` says the slot held before.
pub open spec fn root_oldest<T>(
    roots: Seq<&RootDelta<T>>,
    ri: u32,
    mi: u32,
    ii: u32,
) -> Option<Option<T>> {
    middle_oldest(children_of(roots, ri), mi, ii)
}

/// Roll the interior deltas `middles` (most recent first) back on an
/// interior node: every leaf for which some delta has a child is rolled
/// back, after it was created where it was missing, and the node's bits for
/// that leaf are brought up to date.
pub fn middle_rollback<T: Component>(
    middles: &Vec<&MiddleDelta<T>>,
    middle: &mut Middle<T>,
)
    requires
        middle_ok(*old(middle)),
        forall|k: int| 0 <= k < middles@.len() ==> middle_delta_ok(*#[trigger] middles@[k]),
    ensures
        middle_ok(*final(middle)),
        forall|m: u32, i: u32|
            middle_value(*final(middle), m, i) == (match middle_oldest(middles@, m, i) {
                Some(pre) => pre,
                None => middle_value(*old(middle), m, i),
            }),
        forall|m: u32, i: u32|
            middle_changed(*final(middle), m, i) == (middle_changed(*old(middle), m, i)
                && middle_oldest(middles@, m, i).is_none()),
{
    let (all_updated, _) = union_masks(middles);
    let mut updated = all_updated;
    let mut low: u32 = 0;
    while updated != 0
        invariant
            low <= 128,
            middle_ok(*middle),
            middle_ok(*old(middle)),
            forall|k: int| 0 <= k < middles@.len() ==> middle_delta_ok(*#[trigger] middles@[k]),
            forall|i: u32|
                bit(all_updated, i) <==> exists|k: int|
                    0 <= k < middles@.len() && bit((#[trigger] middles@[k]).updated_mask, i),
            forall|j: u32| j < low ==> !bit(updated, j),
            forall|j: u32| bit(updated, j) ==> bit(all_updated, j),
            forall|j: u32| bit(all_updated, j) && low <= j ==> bit(updated, j),
            forall|m: u32, i: u32|
                bit(all_updated, m) && m < low ==> #[trigger] middle_value(*middle, m, i) == (
                match middle_oldest(middles@, m, i) {
                    Some(pre) => pre,
                    None => middle_value(*old(middle), m, i),
                }),
            forall|m: u32, i: u32|
                bit(all_updated, m) && m < low ==> #[trigger] middle_changed(*middle, m, i) == (
                middle_changed(*old(middle), m, i) && middle_oldest(middles@, m, i).is_none()),
            forall|m: u32| !(bit(all_updated, m) && m < low) ==> #[trigger] middle.slot(m) == old(
                middle,
            ).slot(m),
        decreases 128 - low,
    {
        let mi = updated.trailing_zeros();
        let ghost prev_updated = updated;
        let ghost start = *middle;
        updated = without_bit(updated, mi);
        proof {
            assert forall|k: int| 0 <= k < middles@.len() implies (#[trigger] middles@[k]).wf() by {
                assert(middle_delta_ok(*middles@[k]));
            }
        }
        let leaves = collect_children(middles, mi);
        proof {
            assert forall|k: int| 0 <= k < leaves@.len() implies (#[trigger] leaves@[k]).wf() by {
                lemma_children_from(middles@, mi, k);
                let j = choose|j: int|
                    0 <= j < middles@.len() && (#[trigger] middles@[j]).slot(mi) == Some(
                        Box::new(*leaves@[k]),
                    );
                assert(middle_delta_ok(*middles@[j]));
                assert(bit(middles@[j].updated_mask, mi));
            }
            lemma_bit_single(0);
        }
        // Make sure that the leaf exists before it is restored.
        middle.ensure_child_exists(mi);
        let ghost before = *middle;
        let mut full = false;
        let mut dirty = false;
        match &mut middle.data[mi as usize] {
            None => {},
            Some(inner) => {
                inner_rollback(&leaves, inner);
                full = inner.absence_mask == FULL;
                dirty = inner.changed_mask != 0;
            },
        }
        // The node's bits for the leaf reflect the leaf as it is now.
        if full {
            middle.absence_mask = with_bit(middle.absence_mask, mi);
        } else {
            middle.absence_mask = without_bit(middle.absence_mask, mi);
        }
        if dirty {
            middle.changed_mask = with_bit(middle.changed_mask, mi);
        } else {
            middle.changed_mask = without_bit(middle.changed_mask, mi);
        }
        proof {
            assert(forall|m: u32| m != mi ==> middle.slot(m) == before.slot(m));
            assert(forall|m: u32| m != mi ==> before.slot(m) == old(middle).slot(m) || (bit(
                all_updated,
                m,
            ) && m < low));
            assert forall|m: u32| #[trigger] bit(middle.presence_mask, m) implies {
                &&& inner_ok(*middle.slot(m).unwrap())
                &&& bit(middle.absence_mask, m) <==> middle.slot(m).unwrap().absence_mask == FULL
                &&& middle.slot(m).unwrap().changed_mask != 0 ==> bit(middle.changed_mask, m)
            } by {
                if m != mi {
                    assert(bit(before.presence_mask, m));
                }
            }
            assert forall|m: u32| bit(all_updated, m) && m < mi + 1 && m != mi implies m < low by {
                if low <= m {
                    assert(bit(prev_updated, m));
                }
            }
            assert forall|i: u32|
                #[trigger] middle_value(*middle, mi, i) == (match middle_oldest(middles@, mi, i) {
                    Some(pre) => pre,
                    None => middle_value(*old(middle), mi, i),
                }) && middle_changed(*middle, mi, i) == (middle_changed(*old(middle), mi, i)
                    && middle_oldest(middles@, mi, i).is_none()) by {
                assert(middle.slot(mi).unwrap().slot(i) == leaf_restored(
                    leaves@,
                    *before.slot(mi).unwrap(),
                    i,
                ));
                if !bit(old(middle).presence_mask, mi) {
                    assert(!bit(before.slot(mi).unwrap().presence_mask, i));
                    assert(!bit(before.slot(mi).unwrap().changed_mask, i));
                }
            }
            assert forall|m: u32, i: u32|
                bit(all_updated, m) && m < mi + 1 implies #[trigger] middle_value(*middle, m, i)
                == (match middle_oldest(middles@, m, i) {
                Some(pre) => pre,
                None => middle_value(*old(middle), m, i),
            }) by {
                if m != mi {
                    assert(middle_value(*middle, m, i) == middle_value(start, m, i));
                }
            }
            assert forall|m: u32, i: u32|
                bit(all_updated, m) && m < mi + 1 implies #[trigger] middle_changed(*middle, m, i)
                == (middle_changed(*old(middle), m, i) && middle_oldest(middles@, m, i).is_none()) by {
                if m != mi {
                    assert(middle_changed(*middle, m, i) == middle_changed(start, m, i));
                }
            }
            assert forall|m: u32| !(bit(all_updated, m) && m < mi + 1) implies #[trigger] middle.slot(
                m,
            ) == old(middle).slot(m) by {
                assert(middle.slot(m) == start.slot(m));
            }
        }
        low = mi + 1;
    }
    proof {
        lemma_bit_single(0);
        assert forall|m: u32| bit(all_updated, m) implies m < low by {
            if low <= m {
                assert(bit(updated, m));
            }
        }
        assert forall|m: u32, i: u32| !bit(all_updated, m) implies middle_oldest(
            middles@,
            m,
            i,
        ).is_none() by {
            assert forall|j: int| 0 <= j < middles@.len() implies (#[trigger] middles@[j]).slot(
                m,
            ).is_none() by {
                assert(middle_delta_ok(*middles@[j]));
                assert(!bit(middles@[j].updated_mask, m));
            }
            lemma_children_none(middles@, m);
        }
    }
}

/// Roll the snapshot roots `roots` (most recent first) back on the root
/// of the live hierarchy: every interior node for which some snapshot has a
/// child is rolled back, after it was created where it was missing, and the
/// root's bits for that node are brought up to date.
pub fn root_rollback<T: Component>(
    roots: &Vec<&RootDelta<T>>,
    root: &mut Root<T>,
)
    requires
        root_ok(*old(root)),
        forall|k: int| 0 <= k < roots@.len() ==> root_delta_ok(*#[trigger] roots@[k]),
    ensures
        root_ok(*final(root)),
        forall|r: u32, m: u32, i: u32|
            value_at(*final(root), r, m, i) == (match root_oldest(roots@, r, m, i) {
                Some(pre) => pre,
                None => value_at(*old(root), r, m, i),
            }),
        forall|r: u32, m: u32, i: u32|
            changed_at(*final(root), r, m, i) == (changed_at(*old(root), r, m, i) && root_oldest(
                roots@,
                r,
                m,
                i,
            ).is_none()),
{
    let (all_updated, _) = union_masks(roots);
    let mut updated = all_updated;
    let mut low: u32 = 0;
    while updated != 0
        invariant
            low <= 128,
            root_ok(*root),
            root_ok(*old(root)),
            forall|k: int| 0 <= k < roots@.len() ==> root_delta_ok(*#[trigger] roots@[k]),
            forall|i: u32|
                bit(all_updated, i) <==> exists|k: int|
                    0 <= k < roots@.len() && bit((#[trigger] roots@[k]).updated_mask, i),
            forall|j: u32| j < low ==> !bit(updated, j),
            forall|j: u32| bit(updated, j) ==> bit(all_updated, j),
            forall|j: u32| bit(all_updated, j) && low <= j ==> bit(updated, j),
            forall|r: u32, m: u32, i: u32|
                bit(all_updated, r) && r < low ==> #[trigger] value_at(*root, r, m, i) == (
                match root_oldest(roots@, r, m, i) {
                    Some(pre) => pre,
                    None => value_at(*old(root), r, m, i),
                }),
            forall|r: u32, m: u32, i: u32|
                bit(all_updated, r) && r < low ==> #[trigger] changed_at(*root, r, m, i) == (
                changed_at(*old(root), r, m, i) && root_oldest(roots@, r, m, i).is_none()),
            forall|r: u32| !(bit(all_updated, r) && r < low) ==> #[trigger] root.slot(r) == old(
                root,
            ).slot(r),
        decreases 128 - low,
    {
        let ri = updated.trailing_zeros();
        let ghost prev_updated = updated;
        let ghost start = *root;
        updated = without_bit(updated, ri);
        proof {
            assert forall|k: int| 0 <= k < roots@.len() implies (#[trigger] roots@[k]).wf() by {
                assert(root_delta_ok(*roots@[k]));
            }
        }
        let middles = collect_children(roots, ri);
        proof {
            assert forall|k: int| 0 <= k < middles@.len() implies middle_delta_ok(
                *#[trigger] middles@[k],
            ) by {
                lemma_children_from(roots@, ri, k);
                let j = choose|j: int|
                    0 <= j < roots@.len() && (#[trigger] roots@[j]).slot(ri) == Some(
                        Box::new(*middles@[k]),
                    );
                assert(root_delta_ok(*roots@[j]));
                assert(bit(roots@[j].updated_mask, ri));
            }
            lemma_bit_single(0);
        }
        // Make sure that the interior node exists before it is restored.
        root.ensure_child_exists(ri);
        let ghost before = *root;
        let mut full = false;
        let mut dirty = false;
        match &mut root.data[ri as usize] {
            None => {},
            Some(middle) => {
                middle_rollback(&middles, middle);
                full = middle.absence_mask == FULL;
                dirty = middle.changed_mask != 0;
            },
        }
        // The root's bits for the node reflect the node as it is now.
        if full {
            root.absence_mask = with_bit(root.absence_mask, ri);
        } else {
            root.absence_mask = without_bit(root.absence_mask, ri);
        }
        if dirty {
            root.changed_mask = with_bit(root.changed_mask, ri);
        } else {
            root.changed_mask = without_bit(root.changed_mask, ri);
        }
        proof {
            assert(forall|r: u32| r != ri ==> root.slot(r) == before.slot(r));
            assert forall|r: u32| #[trigger] bit(root.presence_mask, r) implies {
                &&& middle_ok(*root.slot(r).unwrap())
                &&& bit(root.absence_mask, r) <==> root.slot(r).unwrap().absence_mask == FULL
                &&& root.slot(r).unwrap().changed_mask != 0 ==> bit(root.changed_mask, r)
            } by {
                if r != ri {
                    assert(bit(before.presence_mask, r));
                }
            }
            assert forall|r: u32| bit(all_updated, r) && r < ri + 1 && r != ri implies r < low by {
                if low <= r {
                    assert(bit(prev_updated, r));
                }
            }
            assert forall|m: u32, i: u32|
                #[trigger] value_at(*root, ri, m, i) == (match root_oldest(roots@, ri, m, i) {
                    Some(pre) => pre,
                    None => value_at(*old(root), ri, m, i),
                }) && changed_at(*root, ri, m, i) == (changed_at(*old(root), ri, m, i)
                    && root_oldest(roots@, ri, m, i).is_none()) by {
                if !bit(old(root).presence_mask, ri) {
                    assert(!bit(before.slot(ri).unwrap().presence_mask, m));
                }
            }
            assert forall|r: u32, m: u32, i: u32|
                bit(all_updated, r) && r < ri + 1 implies #[trigger] value_at(*root, r, m, i) == (
            match root_oldest(roots@, r, m, i) {
                Some(pre) => pre,
                None => value_at(*old(root), r, m, i),
            }) by {
                if r != ri {
                    assert(value_at(*root, r, m, i) == value_at(start, r, m, i));
                }
            }
            assert forall|r: u32, m: u32, i: u32|
                bit(all_updated, r) && r < ri + 1 implies #[trigger] changed_at(*root, r, m, i)
                == (changed_at(*old(root), r, m, i) && root_oldest(roots@, r, m, i).is_none()) by {
                if r != ri {
                    assert(changed_at(*root, r, m, i) == changed_at(start, r, m, i));
                }
            }
            assert forall|r: u32| !(bit(all_updated, r) && r < ri + 1) implies #[trigger] root.slot(
                r,
            ) == old(root).slot(r) by {
                assert(root.slot(r) == start.slot(r));
            }
        }
        low = ri + 1;
    }
    proof {
        lemma_bit_single(0);
        assert forall|r: u32| bit(all_updated, r) implies r < low by {
            if low <= r {
                assert(bit(updated, r));
            }
        }
        assert forall|r: u32, m: u32, i: u32| !bit(all_updated, r) implies root_oldest(
            roots@,
            r,
            m,
            i,
        ).is_none() by {
            assert forall|j: int| 0 <= j < roots@.len() implies (#[trigger] roots@[j]).slot(
                r,
            ).is_none() by {
                assert(root_delta_ok(*roots@[j]));
                assert(!bit(roots@[j].updated_mask, r));
            }
            lemma_children_none(roots@, r);
            lemma_children_none(children_of(roots@, r), m);
        }
    }
}

/// The deltas of the snapshots `snaps`, in the same order.
pub open spec fn deltas_of<T>(snaps: Seq<Box<RollbackStorage<T>>>) -> Seq<Delta<T>> {
    Seq::new(snaps.len(), |k: int| snaps[k].delta())
}

/// `roots` holds the roots of the snapshots `snaps`, in the same order.
pub open spec fn roots_match<T>(
    roots: Seq<&RootDelta<T>>,
    snaps: Seq<Box<RollbackStorage<T>>>,
) -> bool {
    &&& roots.len() == snaps.len()
    &&& forall|k: int| 0 <= k < roots.len() ==> *#[trigger] roots[k] == snaps[k].root
}

/// The walk down the snapshot trees finds, for every slot, the record
/// that the model's oldest delta gives.
pub proof fn lemma_oldest_matches<T>(
    roots: Seq<&RootDelta<T>>,
    snaps: Seq<Box<RollbackStorage<T>>>,
    index: u32,
)
    requires
        roots_match(roots, snaps),
        forall|k: int| 0 <= k < snaps.len() ==> (#[trigger] snaps[k]).tree_wf(),
        index < CAPACITY,
    ensures
        root_oldest(roots, root_index(index), middle_index(index), inner_index(index))
            == oldest_record(deltas_of(snaps), index),
    decreases snaps.len(),
{
    let ri = root_index(index);
    let mi = middle_index(index);
    let ii = inner_index(index);
    if snaps.len() > 0 {
        let last = snaps.last();
        let shorter_roots = roots.drop_last();
        let shorter = snaps.drop_last();
        assert(roots_match(shorter_roots, shorter));
        lemma_oldest_matches(shorter_roots, shorter, index);
        assert(deltas_of(snaps).drop_last() =~= deltas_of(shorter));
        assert(deltas_of(snaps).last() == last.delta());
        assert(*roots.last() == last.root);
        assert(last.tree_wf());
        let middles = children_of(shorter_roots, ri);
        match last.root.slot(ri) {
            None => {},
            Some(middle) => {
                assert(bit(last.root.updated_mask, ri));
                assert(children_of(roots, ri) == middles.push(&*middle));
                assert(middles.push(&*middle).drop_last() =~= middles);
                match middle.slot(mi) {
                    None => {},
                    Some(leaf) => {
                        assert(bit(middle.updated_mask, mi));
                        let leaves = children_of(middles, mi);
                        assert(children_of(children_of(roots, ri), mi) == leaves.push(&*leaf));
                        assert(leaves.push(&*leaf).drop_last() =~= leaves);
                        assert(leaf.wf());
                    },
                }
            },
        }
    }
}

/// A rollback takes exactly the deltas off the chain that stand before
/// the first one whose tick is at or before the target.
pub proof fn lemma_pop_count<T>(front: Seq<Delta<T>>, rest: Seq<Delta<T>>, target: crate::tick::Tick)
    requires
        forall|k: int| 0 <= k < front.len() ==> (#[trigger] front[k]).tick.0 > target.0,
        rest.len() == 0 || rest[0].tick.0 <= target.0,
    ensures
        pop_count(front + rest, target) == front.len(),
    decreases front.len(),
{
    if front.len() > 0 {
        assert((front + rest)[0] == front[0]);
        assert((front + rest).skip(1) =~= front.skip(1) + rest);
        assert forall|k: int| 0 <= k < front.skip(1).len() implies (#[trigger] front.skip(
            1,
        )[k]).tick.0 > target.0 by {
            assert(front.skip(1)[k] == front[k + 1]);
        }
        lemma_pop_count(front.skip(1), rest, target);
    } else {
        assert(front + rest =~= rest);
    }
}

} // verus!
