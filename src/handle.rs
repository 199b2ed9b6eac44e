use std::marker::PhantomData;
use vstd::prelude::*;

verus! {

/// The index that no slot ever has: a handle to nothing.
pub const NULL_INDEX: usize = usize::MAX;

/// The index that an optional handle names.
pub open spec fn opt_index<T>(h: Option<Handle<T>>) -> Option<usize> {
    match h {
        Some(h) => Some(h.spec_index()),
        None => None,
    }
}

/// An opaque index into an `Arena<T>`. The type parameter keeps handles
/// into different arenas apart; a handle carries no liveness guarantee.
pub struct Handle<T> {
    index: usize,
    marker: PhantomData<T>,
}

impl<T> Handle<T> {
    pub closed spec fn spec_index(&self) -> usize {
        self.index
    }

    pub fn from(index: usize) -> (r: Self)
        ensures
            r.spec_index() == index,
    {
        Handle { index, marker: PhantomData }
    }

    pub fn index(&self) -> (r: usize)
        ensures
            r == self.spec_index(),
    {
        self.index
    }

    /// The handle that names no slot.
    pub fn new_null() -> (r: Self)
        ensures
            r.spec_index() == NULL_INDEX,
    {
        Handle::from(NULL_INDEX)
    }

    pub fn is_null(&self) -> (r: bool)
        ensures
            r == (self.spec_index() == NULL_INDEX),
    {
        self.index == NULL_INDEX
    }

    /// A second handle to the same slot.
    pub fn leak(&self) -> (r: Self)
        ensures
            r.spec_index() == self.spec_index(),
    {
        Handle::from(self.index)
    }
}

} // verus!
