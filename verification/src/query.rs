//! The query engine: the storages of a query are walked in lockstep, level
//! by level, and the indices of the entities that match are collected.

use vstd::prelude::*;
use crate::bits::{bit, FULL, lemma_bit_ops, lemma_bit_single, lemma_full_iff, lowest_run,
    without_bit, without_range};
use crate::hierarchy::{inner_index, lemma_decode, lemma_encode, middle_index, middle_ok,
    root_index, root_ok, slot_index, CAPACITY};
use crate::storage::Storage;

verus! {

/// The three masks of a block.
#[derive(Clone, Copy)]
pub struct Masks {
    pub presence: u128,
    pub absence: u128,
    pub changed: u128,
}

/// The masks of a storage's hierarchy, whatever the component type. A
/// query that spans storages of several component types walks them through
/// one type that implements this trait for all of them.
pub trait MaskTree {
    /// The masks of the root.
    spec fn root(&self) -> Masks;

    /// The masks of the interior node at position `ri`, if it exists.
    spec fn middle(&self, ri: u32) -> Option<Masks>;

    /// The masks of the leaf at positions `ri`, `mi`, if it exists.
    spec fn inner(&self, ri: u32, mi: u32) -> Option<Masks>;

    /// The hierarchy's invariants hold.
    spec fn sound(&self) -> bool;

    /// What the invariants say of the masks: a block exists exactly where
    /// its parent marks it as present; below an absence bit everything is
    /// full; a leaf marks as occupied what is present; and a leaf with
    /// changes is marked as changed in its parent.
    proof fn lemma_masks(&self, ri: u32, mi: u32)
        requires
            self.sound(),
            ri < 128,
            mi < 128,
        ensures
            self.middle(ri).is_some() <==> bit(self.root().presence, ri),
            bit(self.root().absence, ri) ==> self.middle(ri).is_some() && self.middle(
                ri,
            ).unwrap().absence == FULL,
            self.inner(ri, mi).is_some() <==> self.middle(ri).is_some() && bit(
                self.middle(ri).unwrap().presence,
                mi,
            ),
            self.middle(ri).is_some() && bit(self.middle(ri).unwrap().absence, mi) ==> self.inner(
                ri,
                mi,
            ).is_some() && self.inner(ri, mi).unwrap().presence == FULL,
            self.inner(ri, mi).is_some() ==> {
                &&& self.inner(ri, mi).unwrap().absence == self.inner(ri, mi).unwrap().presence
                &&& self.inner(ri, mi).unwrap().changed != 0 ==> bit(
                    self.middle(ri).unwrap().changed,
                    mi,
                )
            },
    ;

    /// The masks of the root.
    fn root_masks(&self) -> (m: Masks)
        requires
            self.sound(),
        ensures
            m == self.root(),
    ;

    /// The masks of the interior node at position `ri`, if it exists.
    fn middle_masks(&self, ri: u32) -> (m: Option<Masks>)
        requires
            self.sound(),
            ri < 128,
        ensures
            m == self.middle(ri),
    ;

    /// The masks of the leaf at positions `ri`, `mi`, if it exists.
    fn inner_masks(&self, ri: u32, mi: u32) -> (m: Option<Masks>)
        requires
            self.sound(),
            ri < 128,
            mi < 128,
        ensures
            m == self.inner(ri, mi),
    ;
}

impl<T> MaskTree for Storage<T> {
    open spec fn root(&self) -> Masks {
        Masks {
            presence: self.root.presence_mask,
            absence: self.root.absence_mask,
            changed: self.root.changed_mask,
        }
    }

    open spec fn middle(&self, ri: u32) -> Option<Masks> {
        match self.root.slot(ri) {
            Some(middle) => Some(
                Masks {
                    presence: middle.presence_mask,
                    absence: middle.absence_mask,
                    changed: middle.changed_mask,
                },
            ),
            None => None,
        }
    }

    open spec fn inner(&self, ri: u32, mi: u32) -> Option<Masks> {
        match self.root.slot(ri) {
            Some(middle) => match middle.slot(mi) {
                Some(inner) => Some(
                    Masks {
                        presence: inner.presence_mask,
                        absence: inner.absence_mask,
                        changed: inner.changed_mask,
                    },
                ),
                None => None,
            },
            None => None,
        }
    }

    open spec fn sound(&self) -> bool {
        root_ok(self.root)
    }

    proof fn lemma_masks(&self, ri: u32, mi: u32) {
        if self.root.slot(ri).is_some() {
            assert(bit(self.root.presence_mask, ri));
            let middle = *self.root.slot(ri).unwrap();
            assert(middle_ok(middle));
            if middle.slot(mi).is_some() {
                assert(bit(middle.presence_mask, mi));
            }
            if bit(middle.absence_mask, mi) {
                assert(bit(middle.presence_mask, mi));
            }
        }
        if bit(self.root.absence_mask, ri) {
            assert(bit(self.root.presence_mask, ri));
        }
    }

    fn root_masks(&self) -> (m: Masks) {
        Masks {
            presence: self.root.presence_mask,
            absence: self.root.absence_mask,
            changed: self.root.changed_mask,
        }
    }

    fn middle_masks(&self, ri: u32) -> (m: Option<Masks>) {
        match &self.root.data[ri as usize] {
            Some(middle) => Some(
                Masks {
                    presence: middle.presence_mask,
                    absence: middle.absence_mask,
                    changed: middle.changed_mask,
                },
            ),
            None => None,
        }
    }

    fn inner_masks(&self, ri: u32, mi: u32) -> (m: Option<Masks>) {
        proof {
            if self.root.slot(ri).is_some() {
                assert(bit(self.root.presence_mask, ri));
            }
        }
        match &self.root.data[ri as usize] {
            Some(middle) => match &middle.data[mi as usize] {
                Some(inner) => Some(
                    Masks {
                        presence: inner.presence_mask,
                        absence: inner.absence_mask,
                        changed: inner.changed_mask,
                    },
                ),
                None => None,
            },
            None => None,
        }
    }
}

/// Whether the slot `index` of a hierarchy is occupied.
pub open spec fn occupied<S: MaskTree>(tree: &S, index: u32) -> bool {
    index < CAPACITY && match tree.inner(root_index(index), middle_index(index)) {
        Some(masks) => bit(masks.presence, inner_index(index)),
        None => false,
    }
}

/// Whether the slot `index` of a hierarchy is marked as changed in its leaf.
pub open spec fn marked<S: MaskTree>(tree: &S, index: u32) -> bool {
    index < CAPACITY && match tree.inner(root_index(index), middle_index(index)) {
        Some(masks) => bit(masks.changed, inner_index(index)),
        None => false,
    }
}

/// The storages that a query speaks of.
pub struct Query<'a, S: MaskTree> {
    /// Storages that must hold the entity: those of the views and of the `All` types.
    pub all: Vec<&'a S>,
    /// Storages that must not hold the entity.
    pub none: Vec<&'a S>,
    /// Storages of which at least one must hold the entity, unless the list is empty.
    pub any: Vec<&'a S>,
    /// Storages of which at least one must mark the entity as changed,
    /// unless the list is empty.
    pub changed: Vec<&'a S>,
}

/// Every hierarchy of the list is sound.
pub open spec fn all_sound<S: MaskTree>(trees: Seq<&S>) -> bool {
    forall|k: int| 0 <= k < trees.len() ==> (#[trigger] trees[k]).sound()
}

/// Every hierarchy of the list holds the entity `index`.
pub open spec fn each_occupied<S: MaskTree>(trees: Seq<&S>, index: u32) -> bool {
    forall|k: int| 0 <= k < trees.len() ==> occupied(#[trigger] trees[k], index)
}

/// Some hierarchy of the list holds the entity `index`.
pub open spec fn some_occupied<S: MaskTree>(trees: Seq<&S>, index: u32) -> bool {
    exists|k: int| 0 <= k < trees.len() && occupied(#[trigger] trees[k], index)
}

/// Some hierarchy of the list marks the entity `index` as changed.
pub open spec fn some_marked<S: MaskTree>(trees: Seq<&S>, index: u32) -> bool {
    exists|k: int| 0 <= k < trees.len() && marked(#[trigger] trees[k], index)
}

impl<'a, S: MaskTree> Query<'a, S> {
    /// Every storage of the query is sound.
    pub open spec fn wf(&self) -> bool {
        &&& all_sound(self.all@)
        &&& all_sound(self.none@)
        &&& all_sound(self.any@)
        &&& all_sound(self.changed@)
    }

    /// Whether the entity with index `index` satisfies the query: every
    /// `all` storage holds it, no `none` storage holds it, some `any`
    /// storage holds it unless there is none, and some `changed` storage
    /// marks it as changed unless there is none.
    pub open spec fn matches(&self, index: u32) -> bool {
        &&& index < CAPACITY
        &&& each_occupied(self.all@, index)
        &&& !some_occupied(self.none@, index)
        &&& self.any@.len() > 0 ==> some_occupied(self.any@, index)
        &&& self.changed@.len() > 0 ==> some_marked(self.changed@, index)
    }
}

/// One of the three masks of a block.
#[derive(Clone, Copy, PartialEq, Eq, Structural)]
pub enum Field {
    Presence,
    Absence,
    Changed,
}

/// The mask `which` of `masks`.
pub open spec fn field(masks: Masks, which: Field) -> u128 {
    match which {
        Field::Presence => masks.presence,
        Field::Absence => masks.absence,
        Field::Changed => masks.changed,
    }
}

/// The masks of the block of `tree` that a walk at depth `depth` looks at:
/// the root at depth 0, the interior node at `ri` at depth 1, and the leaf
/// at `ri`, `mi` at depth 2.
pub open spec fn level_masks<S: MaskTree>(tree: &S, depth: u8, ri: u32, mi: u32) -> Option<Masks> {
    if depth == 0 {
        Some(tree.root())
    } else if depth == 1 {
        tree.middle(ri)
    } else {
        tree.inner(ri, mi)
    }
}

/// Whether the block of `tree` at the walk's place exists and has bit `j`
/// of its mask `which` set.
pub open spec fn level_bit<S: MaskTree>(
    tree: &S,
    depth: u8,
    ri: u32,
    mi: u32,
    which: Field,
    j: u32,
) -> bool {
    match level_masks(tree, depth, ri, mi) {
        Some(masks) => bit(field(masks, which), j),
        None => false,
    }
}

/// The masks of the block of `tree` at the walk's place.
fn fetch<S: MaskTree>(tree: &S, depth: u8, ri: u32, mi: u32) -> (m: Option<Masks>)
    requires
        tree.sound(),
        ri < 128,
        mi < 128,
        depth <= 2,
    ensures
        m == level_masks(tree, depth, ri, mi),
{
    if depth == 0 {
        Some(tree.root_masks())
    } else if depth == 1 {
        tree.middle_masks(ri)
    } else {
        tree.inner_masks(ri, mi)
    }
}

/// The mask `which` of `masks`.
fn pick(masks: Masks, which: Field) -> (m: u128)
    ensures
        m == field(masks, which),
{
    match which {
        Field::Presence => masks.presence,
        Field::Absence => masks.absence,
        Field::Changed => masks.changed,
    }
}

/// The intersection of the presence masks of the blocks of `trees` at the
/// walk's place; a block that does not exist counts as empty.
fn intersect_presence<S: MaskTree>(trees: &Vec<&S>, depth: u8, ri: u32, mi: u32) -> (m: u128)
    requires
        all_sound(trees@),
        ri < 128,
        mi < 128,
        depth <= 2,
    ensures
        forall|j: u32|
            j < 128 ==> (#[trigger] bit(m, j) <==> forall|k: int|
                0 <= k < trees@.len() ==> #[trigger] level_bit(
                    trees@[k],
                    depth,
                    ri,
                    mi,
                    Field::Presence,
                    j,
                )),
{
    let mut m: u128 = FULL;
    let mut i: usize = 0;
    proof {
        lemma_bit_single(0);
    }
    while i < trees.len()
        invariant
            all_sound(trees@),
            ri < 128,
            mi < 128,
            depth <= 2,
            i <= trees@.len(),
            forall|j: u32|
                j < 128 ==> (#[trigger] bit(m, j) <==> forall|k: int|
                    0 <= k < i ==> #[trigger] level_bit(
                        trees@[k],
                        depth,
                        ri,
                        mi,
                        Field::Presence,
                        j,
                    )),
        decreases trees@.len() - i,
    {
        let ghost before = m;
        let here = match fetch(trees[i], depth, ri, mi) {
            Some(masks) => masks.presence,
            None => 0,
        };
        proof {
            lemma_bit_ops(m, here);
            lemma_bit_single(0);
        }
        m = m & here;
        proof {
            assert forall|j: u32| j < 128 implies (#[trigger] bit(m, j) <==> forall|k: int|
                0 <= k < i + 1 ==> #[trigger] level_bit(
                    trees@[k],
                    depth,
                    ri,
                    mi,
                    Field::Presence,
                    j,
                )) by {
                assert(bit(here, j) == level_bit(trees@[i as int], depth, ri, mi, Field::Presence, j));
                if bit(m, j) {
                    assert(bit(before, j));
                }
            }
        }
        i += 1;
    }
    m
}

/// The union of the masks `which` of the blocks of `trees` at the walk's
/// place, as far as the blocks exist.
fn unite<S: MaskTree>(trees: &Vec<&S>, depth: u8, ri: u32, mi: u32, which: Field) -> (m: u128)
    requires
        all_sound(trees@),
        ri < 128,
        mi < 128,
        depth <= 2,
    ensures
        forall|j: u32|
            j < 128 ==> (#[trigger] bit(m, j) <==> exists|k: int|
                0 <= k < trees@.len() && #[trigger] level_bit(trees@[k], depth, ri, mi, which, j)),
{
    let mut m: u128 = 0;
    let mut i: usize = 0;
    proof {
        lemma_bit_single(0);
    }
    while i < trees.len()
        invariant
            all_sound(trees@),
            ri < 128,
            mi < 128,
            depth <= 2,
            i <= trees@.len(),
            forall|j: u32|
                j < 128 ==> (#[trigger] bit(m, j) <==> exists|k: int|
                    0 <= k < i && #[trigger] level_bit(trees@[k], depth, ri, mi, which, j)),
        decreases trees@.len() - i,
    {
        let ghost before = m;
        let here = match fetch(trees[i], depth, ri, mi) {
            Some(masks) => pick(masks, which),
            None => 0,
        };
        proof {
            lemma_bit_ops(m, here);
            lemma_bit_single(0);
        }
        m = m | here;
        proof {
            assert forall|j: u32| j < 128 implies (#[trigger] bit(m, j) <==> exists|k: int|
                0 <= k < i + 1 && #[trigger] level_bit(trees@[k], depth, ri, mi, which, j)) by {
                assert(bit(here, j) == level_bit(trees@[i as int], depth, ri, mi, which, j));
                if bit(before, j) {
                    let k = choose|k: int|
                        0 <= k < i && #[trigger] level_bit(trees@[k], depth, ri, mi, which, j);
                    assert(level_bit(trees@[k], depth, ri, mi, which, j));
                }
                if exists|k: int|
                    0 <= k < i + 1 && #[trigger] level_bit(trees@[k], depth, ri, mi, which, j) {
                    let k = choose|k: int|
                        0 <= k < i + 1 && #[trigger] level_bit(trees@[k], depth, ri, mi, which, j);
                    if k < i {
                        assert(bit(before, j));
                    }
                }
            }
        }
        i += 1;
    }
    m
}

impl<'a, S: MaskTree> Query<'a, S> {
    /// Whether position `j` of the blocks at the walk's place passes the
    /// query's filters at depth `depth`: every `all` block is present
    /// there and no `none` block is full there; below the root, some `any`
    /// block is present there and some `changed` block is marked there,
    /// unless the list is empty.
    pub open spec fn passes(&self, depth: u8, ri: u32, mi: u32, j: u32) -> bool {
        &&& j < 128
        &&& forall|k: int|
            0 <= k < self.all@.len() ==> #[trigger] level_bit(
                self.all@[k],
                depth,
                ri,
                mi,
                Field::Presence,
                j,
            )
        &&& !exists|k: int|
            0 <= k < self.none@.len() && #[trigger] level_bit(
                self.none@[k],
                depth,
                ri,
                mi,
                Field::Absence,
                j,
            )
        &&& depth > 0 && self.any@.len() > 0 ==> exists|k: int|
            0 <= k < self.any@.len() && #[trigger] level_bit(
                self.any@[k],
                depth,
                ri,
                mi,
                Field::Presence,
                j,
            )
        &&& depth > 0 && self.changed@.len() > 0 ==> exists|k: int|
            0 <= k < self.changed@.len() && #[trigger] level_bit(
                self.changed@[k],
                depth,
                ri,
                mi,
                Field::Changed,
                j,
            )
    }

    /// The mask of the positions that pass the query's filters at the walk's place.
    fn level_mask(&self, depth: u8, ri: u32, mi: u32) -> (m: u128)
        requires
            self.wf(),
            ri < 128,
            mi < 128,
            depth <= 2,
        ensures
            forall|j: u32| #[trigger] bit(m, j) == self.passes(depth, ri, mi, j),
    {
        let required = intersect_presence(&self.all, depth, ri, mi);
        let excluded = unite(&self.none, depth, ri, mi, Field::Absence);
        proof {
            lemma_bit_ops(required, excluded);
        }
        let mut m = required & !excluded;
        if depth > 0 && self.any.len() > 0 {
            let any = unite(&self.any, depth, ri, mi, Field::Presence);
            proof {
                lemma_bit_ops(m, any);
            }
            m = m & any;
        }
        if depth > 0 && self.changed.len() > 0 {
            let changed = unite(&self.changed, depth, ri, mi, Field::Changed);
            proof {
                lemma_bit_ops(m, changed);
            }
            m = m & changed;
        }
        m
    }

    /// At a leaf, a position passes the filters exactly when the entity there matches.
    pub proof fn lemma_leaf_exact(&self, ri: u32, mi: u32, ii: u32)
        requires
            self.wf(),
            ri < 128,
            mi < 128,
            ii < 128,
        ensures
            self.passes(2, ri, mi, ii) == self.matches(slot_index(ri, mi, ii)),
    {
        let index = slot_index(ri, mi, ii);
        lemma_encode(ri, mi, ii);
        assert forall|k: int| 0 <= k < self.all@.len() implies (#[trigger] level_bit(
            self.all@[k],
            2,
            ri,
            mi,
            Field::Presence,
            ii,
        ) == occupied(self.all@[k], index)) by {}
        assert forall|k: int| 0 <= k < self.none@.len() implies (#[trigger] level_bit(
            self.none@[k],
            2,
            ri,
            mi,
            Field::Absence,
            ii,
        ) == occupied(self.none@[k], index)) by {
            self.none@[k].lemma_masks(ri, mi);
        }
        assert forall|k: int| 0 <= k < self.any@.len() implies (#[trigger] level_bit(
            self.any@[k],
            2,
            ri,
            mi,
            Field::Presence,
            ii,
        ) == occupied(self.any@[k], index)) by {}
        assert forall|k: int| 0 <= k < self.changed@.len() implies (#[trigger] level_bit(
            self.changed@[k],
            2,
            ri,
            mi,
            Field::Changed,
            ii,
        ) == marked(self.changed@[k], index)) by {}
        if self.passes(2, ri, mi, ii) {
            assert(each_occupied(self.all@, index)) by {
                assert forall|k: int| 0 <= k < self.all@.len() implies occupied(
                    #[trigger] self.all@[k],
                    index,
                ) by {
                    assert(level_bit(self.all@[k], 2, ri, mi, Field::Presence, ii));
                }
            }
            if some_occupied(self.none@, index) {
                let k = choose|k: int|
                    0 <= k < self.none@.len() && occupied(#[trigger] self.none@[k], index);
                assert(level_bit(self.none@[k], 2, ri, mi, Field::Absence, ii));
            }
            if self.any@.len() > 0 {
                let k = choose|k: int|
                    0 <= k < self.any@.len() && #[trigger] level_bit(
                        self.any@[k],
                        2,
                        ri,
                        mi,
                        Field::Presence,
                        ii,
                    );
                assert(occupied(self.any@[k], index));
            }
            if self.changed@.len() > 0 {
                let k = choose|k: int|
                    0 <= k < self.changed@.len() && #[trigger] level_bit(
                        self.changed@[k],
                        2,
                        ri,
                        mi,
                        Field::Changed,
                        ii,
                    );
                assert(marked(self.changed@[k], index));
            }
        }
        if self.matches(index) {
            assert forall|k: int| 0 <= k < self.all@.len() implies #[trigger] level_bit(
                self.all@[k],
                2,
                ri,
                mi,
                Field::Presence,
                ii,
            ) by {
                assert(occupied(self.all@[k], index));
            }
            if exists|k: int|
                0 <= k < self.none@.len() && #[trigger] level_bit(
                    self.none@[k],
                    2,
                    ri,
                    mi,
                    Field::Absence,
                    ii,
                ) {
                let k = choose|k: int|
                    0 <= k < self.none@.len() && #[trigger] level_bit(
                        self.none@[k],
                        2,
                        ri,
                        mi,
                        Field::Absence,
                        ii,
                    );
                assert(occupied(self.none@[k], index));
            }
            if self.any@.len() > 0 {
                let k = choose|k: int|
                    0 <= k < self.any@.len() && occupied(#[trigger] self.any@[k], index);
                assert(level_bit(self.any@[k], 2, ri, mi, Field::Presence, ii));
            }
            if self.changed@.len() > 0 {
                let k = choose|k: int|
                    0 <= k < self.changed@.len() && marked(#[trigger] self.changed@[k], index);
                assert(level_bit(self.changed@[k], 2, ri, mi, Field::Changed, ii));
            }
        }
    }

    /// The walk misses nothing: the leaf of a matching entity passes the
    /// filters at its interior node, and the interior node at the root.
    pub proof fn lemma_walk_reaches(&self, ri: u32, mi: u32, ii: u32)
        requires
            self.wf(),
            ri < 128,
            mi < 128,
            ii < 128,
            self.matches(slot_index(ri, mi, ii)),
        ensures
            self.passes(1, ri, 0, mi),
            self.passes(0, 0, 0, ri),
    {
        let index = slot_index(ri, mi, ii);
        lemma_encode(ri, mi, ii);
        assert forall|k: int| 0 <= k < self.all@.len() implies #[trigger] level_bit(
            self.all@[k],
            1,
            ri,
            0,
            Field::Presence,
            mi,
        ) by {
            assert(occupied(self.all@[k], index));
            self.all@[k].lemma_masks(ri, mi);
        }
        assert forall|k: int| 0 <= k < self.all@.len() implies #[trigger] level_bit(
            self.all@[k],
            0,
            0,
            0,
            Field::Presence,
            ri,
        ) by {
            assert(occupied(self.all@[k], index));
            self.all@[k].lemma_masks(ri, mi);
        }
        assert forall|k: int| 0 <= k < self.none@.len() implies !#[trigger] level_bit(
            self.none@[k],
            1,
            ri,
            0,
            Field::Absence,
            mi,
        ) by {
            let tree = self.none@[k];
            assert(!occupied(tree, index));
            tree.lemma_masks(ri, mi);
            if tree.middle(ri).is_some() && bit(tree.middle(ri).unwrap().absence, mi) {
                lemma_full_iff(tree.inner(ri, mi).unwrap().presence);
            }
        }
        assert forall|k: int| 0 <= k < self.none@.len() implies !#[trigger] level_bit(
            self.none@[k],
            0,
            0,
            0,
            Field::Absence,
            ri,
        ) by {
            let tree = self.none@[k];
            assert(!occupied(tree, index));
            tree.lemma_masks(ri, mi);
            if bit(tree.root().absence, ri) {
                lemma_full_iff(tree.middle(ri).unwrap().absence);
                lemma_full_iff(tree.inner(ri, mi).unwrap().presence);
            }
        }
        if self.any@.len() > 0 {
            let k = choose|k: int|
                0 <= k < self.any@.len() && occupied(#[trigger] self.any@[k], index);
            self.any@[k].lemma_masks(ri, mi);
            assert(level_bit(self.any@[k], 1, ri, 0, Field::Presence, mi));
        }
        if self.changed@.len() > 0 {
            let k = choose|k: int|
                0 <= k < self.changed@.len() && marked(#[trigger] self.changed@[k], index);
            let tree = self.changed@[k];
            tree.lemma_masks(ri, mi);
            lemma_bit_single(0);
            assert(tree.inner(ri, mi).unwrap().changed != 0);
            assert(level_bit(tree, 1, ri, 0, Field::Changed, mi));
        }
    }

    /// `found` lists exactly the matching entities with an index below
    /// `bound`, in ascending order.
    pub open spec fn lists_matches(&self, found: Seq<u32>, bound: int) -> bool {
        &&& forall|p: int, q: int| 0 <= p < q < found.len() ==> found[p] < found[q]
        &&& forall|p: int|
            0 <= p < found.len() ==> (#[trigger] found[p]) < bound && self.matches(found[p])
        &&& forall|index: u32|
            index < bound && #[trigger] self.matches(index) ==> found.contains(index)
    }

    /// Where no entity with an index from `bound` to below `further`
    /// matches, a list that is complete below `bound` is complete below `further`.
    proof fn lemma_skip(&self, found: Seq<u32>, bound: int, further: int)
        requires
            self.lists_matches(found, bound),
            bound <= further,
            forall|index: u32| bound <= index < further ==> !#[trigger] self.matches(index),
        ensures
            self.lists_matches(found, further),
    {
    }

    /// Append the matching entities of the leaf at `ri`, `mi`: the runs of
    /// set bits of the leaf's mask are followed one after the other.
    fn scan_inner(&self, ri: u32, mi: u32, found: &mut Vec<u32>)
        requires
            self.wf(),
            ri < 128,
            mi < 128,
            self.lists_matches(old(found)@, ri * 16384 + mi * 128),
        ensures
            self.lists_matches(final(found)@, ri * 16384 + mi * 128 + 128),
    {
        let base: u32 = ri * 16384 + mi * 128;
        let mut mask = self.level_mask(2, ri, mi);
        let ghost whole = mask;
        let mut low: u32 = 0;
        while mask != 0
            invariant
                self.wf(),
                ri < 128,
                mi < 128,
                base == ri * 16384 + mi * 128,
                low <= 128,
                forall|j: u32| #[trigger] bit(whole, j) == self.passes(2, ri, mi, j),
                forall|j: u32| j < low ==> !bit(mask, j),
                forall|j: u32| low <= j ==> bit(mask, j) == bit(whole, j),
                self.lists_matches(found@, base + low),
            decreases 128 - low,
        {
            let (start, run) = lowest_run(mask);
            proof {
                assert forall|index: u32| base + low <= index < base + start implies !#[trigger] self.matches(
                    index,
                ) by {
                    lemma_decode(index);
                    let ii = inner_index(index);
                    assert(root_index(index) == ri && middle_index(index) == mi);
                    assert(low <= ii < start);
                    assert(!bit(mask, ii));
                    self.lemma_leaf_exact(ri, mi, ii);
                }
                self.lemma_skip(found@, base + low, base + start);
            }
            let mut ii: u32 = start;
            while ii < start + run
                invariant
                    self.wf(),
                    ri < 128,
                    mi < 128,
                    base == ri * 16384 + mi * 128,
                    start <= ii <= start + run,
                    start + run <= 128,
                    forall|j: u32| #[trigger] bit(whole, j) == self.passes(2, ri, mi, j),
                    forall|j: u32| start <= j && j < start + run ==> bit(whole, j),
                    self.lists_matches(found@, base + ii),
                decreases start + run - ii,
            {
                let ghost before = found@;
                proof {
                    assert(bit(whole, ii));
                    self.lemma_leaf_exact(ri, mi, ii);
                    lemma_encode(ri, mi, ii);
                }
                found.push(base + ii);
                proof {
                    let index = (base + ii) as u32;
                    assert forall|p: int, q: int| 0 <= p < q < found@.len() implies found@[p]
                        < found@[q] by {
                        if q == found@.len() - 1 {
                            assert(before[p] < base + ii);
                        }
                    }
                    assert forall|other: u32|
                        other < base + ii + 1 && #[trigger] self.matches(other) implies found@.contains(
                        other,
                    ) by {
                        if other < base + ii {
                            assert(before.contains(other));
                            let p = choose|p: int| 0 <= p < before.len() && before[p] == other;
                            assert(found@[p] == other);
                        } else {
                            assert(found@[found@.len() - 1] == other);
                        }
                    }
                }
                ii += 1;
            }
            proof {
                assert forall|j: u32| start <= j && j < start + run implies bit(whole, j) by {
                    assert(bit(mask, j));
                }
            }
            mask = without_range(mask, start, run);
            low = start + run;
        }
        proof {
            lemma_bit_single(0);
            assert forall|index: u32| base + low <= index < base + 128 implies !#[trigger] self.matches(
                index,
            ) by {
                lemma_decode(index);
                let ii = inner_index(index);
                assert(root_index(index) == ri && middle_index(index) == mi);
                assert(!bit(mask, ii));
                self.lemma_leaf_exact(ri, mi, ii);
            }
            self.lemma_skip(found@, base + low, base + 128);
        }
    }

    /// Append the matching entities below the interior nodes at `ri`:
    /// only the leaves that pass the filters at this level are visited.
    fn scan_middle(&self, ri: u32, found: &mut Vec<u32>)
        requires
            self.wf(),
            ri < 128,
            self.lists_matches(old(found)@, ri * 16384),
        ensures
            self.lists_matches(final(found)@, ri * 16384 + 16384),
    {
        let mut mask = self.level_mask(1, ri, 0);
        let ghost whole = mask;
        let mut low: u32 = 0;
        while mask != 0
            invariant
                self.wf(),
                ri < 128,
                low <= 128,
                forall|j: u32| #[trigger] bit(whole, j) == self.passes(1, ri, 0, j),
                forall|j: u32| j < low ==> !bit(mask, j),
                forall|j: u32| low <= j ==> bit(mask, j) == bit(whole, j),
                self.lists_matches(found@, ri * 16384 + low * 128),
            decreases 128 - low,
        {
            let mi = mask.trailing_zeros();
            proof {
                assert forall|index: u32|
                    ri * 16384 + low * 128 <= index < ri * 16384 + mi * 128 implies !#[trigger] self.matches(
                    index,
                ) by {
                    lemma_decode(index);
                    let m = middle_index(index);
                    assert(root_index(index) == ri);
                    assert(low <= m < mi);
                    assert(!bit(mask, m));
                    if self.matches(index) {
                        self.lemma_walk_reaches(ri, m, inner_index(index));
                    }
                }
                self.lemma_skip(found@, ri * 16384 + low * 128, ri * 16384 + mi * 128);
            }
            self.scan_inner(ri, mi, found);
            mask = without_bit(mask, mi);
            low = mi + 1;
        }
        proof {
            lemma_bit_single(0);
            assert forall|index: u32|
                ri * 16384 + low * 128 <= index < ri * 16384 + 16384 implies !#[trigger] self.matches(
                index,
            ) by {
                lemma_decode(index);
                let m = middle_index(index);
                assert(root_index(index) == ri);
                assert(!bit(mask, m));
                if self.matches(index) {
                    self.lemma_walk_reaches(ri, m, inner_index(index));
                }
            }
            self.lemma_skip(found@, ri * 16384 + low * 128, ri * 16384 + 16384);
        }
    }

    /// The indices of the entities that match the query, in ascending
    /// order. The storages are walked in lockstep: at the root, at every
    /// interior node and at every leaf the masks of all storages are
    /// combined, and only what passes is descended into.
    pub fn matching_indices(&self) -> (found: Vec<u32>)
        requires
            self.wf(),
        ensures
            forall|p: int, q: int| 0 <= p < q < found@.len() ==> found@[p] < found@[q],
            forall|index: u32| found@.contains(index) <==> self.matches(index),
    {
        let mut found: Vec<u32> = Vec::new();
        let mut mask = self.level_mask(0, 0, 0);
        let ghost whole = mask;
        let mut low: u32 = 0;
        while mask != 0
            invariant
                self.wf(),
                low <= 128,
                forall|j: u32| #[trigger] bit(whole, j) == self.passes(0, 0, 0, j),
                forall|j: u32| j < low ==> !bit(mask, j),
                forall|j: u32| low <= j ==> bit(mask, j) == bit(whole, j),
                self.lists_matches(found@, low * 16384),
            decreases 128 - low,
        {
            let ri = mask.trailing_zeros();
            proof {
                assert forall|index: u32|
                    low * 16384 <= index < ri * 16384 implies !#[trigger] self.matches(index) by {
                    lemma_decode(index);
                    let r = root_index(index);
                    assert(low <= r < ri);
                    assert(!bit(mask, r));
                    if self.matches(index) {
                        self.lemma_walk_reaches(r, middle_index(index), inner_index(index));
                    }
                }
                self.lemma_skip(found@, low * 16384, ri * 16384);
            }
            self.scan_middle(ri, &mut found);
            mask = without_bit(mask, ri);
            low = ri + 1;
        }
        proof {
            lemma_bit_single(0);
            assert forall|index: u32| low * 16384 <= index < 2097152 implies !#[trigger] self.matches(
                index,
            ) by {
                lemma_decode(index);
                let r = root_index(index);
                assert(!bit(mask, r));
                if self.matches(index) {
                    self.lemma_walk_reaches(r, middle_index(index), inner_index(index));
                }
            }
            self.lemma_skip(found@, low * 16384, 2097152);
            assert forall|index: u32| found@.contains(index) implies self.matches(index) by {
                let p = choose|p: int| 0 <= p < found@.len() && found@[p] == index;
                assert(self.matches(found@[p]));
            }
        }
        found
    }
}

} // verus!
