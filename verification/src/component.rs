//! What a type must provide to be stored as a component.

use vstd::prelude::*;

verus! {

/// The source of type indices: the next index that was not handed out yet.
pub struct TypeIndexCounter {
    pub next: usize,
}

impl TypeIndexCounter {
    /// A counter that starts with the first index that the components
    /// defined here do not use.
    pub fn new() -> (counter: TypeIndexCounter)
        ensures
            counter.next == FIRST_FREE_TYPE_INDEX,
    {
        TypeIndexCounter { next: FIRST_FREE_TYPE_INDEX }
    }
}

/// Hand out the next type index: each call returns an index that no
/// earlier call on the same counter returned, as long as the counter does
/// not wrap around.
pub fn next_id(counter: &mut TypeIndexCounter) -> (id: usize)
    ensures
        id == old(counter).next,
        final(counter).next == (if old(counter).next == usize::MAX {
            0
        } else {
            old(counter).next + 1
        }),
{
    let id = counter.next;
    counter.next = id.wrapping_add(1);
    id
}

/// A value that can be registered under a process-unique type index.
pub trait Resource: Clone + Default + Sized {
    /// The index under which this type's storage is registered.
    fn type_index() -> usize;
}

/// A component: a resource that a storage can hold, snapshot and restore.
pub trait Component: Resource {
    /// True if this component type is temporary and is not logged for
    /// rollback. Temporary components accrue no snapshot deltas.
    const IS_TEMPORARY: bool = false;

    /// Snapshots and rollback copy values with `clone`, so a clone must
    /// equal what it was cloned from.
    proof fn clone_is_faithful(source: Self, copy: Self)
        requires
            cloned(source, copy),
        ensures
            source == copy,
    ;
}

/// A marker carried by an entity, without data of its own.
pub trait Tag: Sized {

}

/// Tag component that marks an entity for removal at the end of the tick.
#[derive(Clone, Copy, PartialEq, Eq, Debug, Structural)]
pub struct Destroyed {}

impl Default for Destroyed {
    fn default() -> (d: Destroyed)
        ensures
            d == (Destroyed {  }),
    {
        Destroyed {  }
    }
}

/// Type index of the entity component.
pub const ENTITY_TYPE_INDEX: usize = 0;

/// Type index of the [`Destroyed`] tag component.
pub const DESTROYED_TYPE_INDEX: usize = 1;

/// Type index of plain `u32` values stored as components.
pub const U32_TYPE_INDEX: usize = 2;

/// The first type index that the components defined here do not use.
pub const FIRST_FREE_TYPE_INDEX: usize = 3;

impl Resource for Destroyed {
    fn type_index() -> (i: usize)
        ensures
            i == DESTROYED_TYPE_INDEX,
    {
        DESTROYED_TYPE_INDEX
    }
}

impl Component for Destroyed {
    const IS_TEMPORARY: bool = true;

    proof fn clone_is_faithful(source: Self, copy: Self) {
    }
}

impl Resource for crate::entity::Entity {
    fn type_index() -> (i: usize)
        ensures
            i == ENTITY_TYPE_INDEX,
    {
        ENTITY_TYPE_INDEX
    }
}

impl Component for crate::entity::Entity {
    const IS_TEMPORARY: bool = false;

    proof fn clone_is_faithful(source: Self, copy: Self) {
    }
}

impl Resource for u32 {
    fn type_index() -> (i: usize)
        ensures
            i == U32_TYPE_INDEX,
    {
        U32_TYPE_INDEX
    }
}

impl Component for u32 {
    const IS_TEMPORARY: bool = false;

    proof fn clone_is_faithful(source: Self, copy: Self) {
    }
}

/// Of the components defined here, only the `Destroyed` tag is temporary.
pub proof fn lemma_temporary_components()
    ensures
        !<crate::entity::Entity as Component>::IS_TEMPORARY,
        <Destroyed as Component>::IS_TEMPORARY,
        !<u32 as Component>::IS_TEMPORARY,
{
}

} // verus!
