//! What a query hands to its body: a read-only view of a component, or a
//! view through which the component can be changed.

use vstd::prelude::*;
use crate::component::Component;
use crate::storage::{Storage, StorageError};

verus! {

/// A read-only view of one component instance.
pub struct View<'a, T: Component> {
    pub data: &'a T,
}

impl<'a, T: Component> View<'a, T> {
    /// A view of `data`.
    pub fn new(data: &'a T) -> (view: View<'a, T>)
        ensures
            view.data == data,
    {
        View { data }
    }

    /// The component instance that the view shows.
    pub fn get(&self) -> (data: &T)
        ensures
            data == self.data,
    {
        self.data
    }
}

/// A view of the component of one entity through which it can be changed:
/// the storage and the entity's index.
pub struct ViewMut<'a, T: Component> {
    pub storage: &'a mut Storage<T>,
    pub index: u32,
}

impl<'a, T: Component> ViewMut<'a, T> {
    /// A view of slot `index` of `storage`.
    pub fn new(storage: &'a mut Storage<T>, index: u32) -> (view: Self)
        ensures
            *view.storage == *old(storage),
            *final(view.storage) == *final(storage),
            view.index == index,
    {
        ViewMut { storage, index }
    }

    /// The component instance, if the slot is occupied.
    pub fn get(&self) -> (data: Option<&T>)
        requires
            self.storage.wf(),
        ensures
            data == match old(self.storage).slot(self.index) {
                Some(v) => Some(&v),
                None => None,
            },
    {
        self.storage.get(self.index)
    }

    /// A mutable reference to the component instance. The slot is marked
    /// as changed, and its first mutation within the tick is recorded for
    /// rollback. An empty slot is refused with `OutOfBounds`.
    pub fn get_mut(&mut self) -> (data: Result<&mut T, StorageError>)
        requires
            old(self).storage.wf(),
        ensures
            final(self).index == old(self).index,
            old(self).storage.slot(old(self).index).is_some() <==> data.is_ok(),
            match data {
                Ok(value) => {
                    &&& *value == old(self).storage.slot(old(self).index).unwrap()
                    &&& final(self).storage.wf()
                    &&& final(self).storage.state() == old(self).storage.state().write(
                        old(self).index,
                        *final(value),
                        !T::IS_TEMPORARY,
                    )
                },
                Err(e) => e == StorageError::OutOfBounds && *final(self).storage == *old(
                    self,
                ).storage,
            },
    {
        self.storage.get_mut(self.index)
    }
}

} // verus!
