use vstd::prelude::*;

verus! {

/// An operation that a scripted run applies to a trie and to a reference map.
#[derive(Clone, Copy, Debug, PartialEq, Eq, Structural)]
pub enum Op {
    Insert,
    Get,
    GetDeepest,
    Remove,
}

/// One step of a scripted run: an operation and the item it acts on.
pub struct Action<T> {
    pub op: Op,
    pub item: T,
}

impl<T> Action<T> {
    pub fn new(op: Op, item: T) -> (r: Self)
        ensures
            r.op == op,
            r.item == item,
    {
        Action { op, item }
    }

    pub fn op(&self) -> (r: &Op)
        ensures
            *r == self.op,
    {
        &self.op
    }

    pub fn item(&self) -> (r: &T)
        ensures
            *r == self.item,
    {
        &self.item
    }

    /// The same operation on the item that `f` makes of this one.
    pub fn map_item<U, F: FnOnce(T) -> U>(self, f: F) -> (r: Action<U>)
        requires
            f.requires((self.item,)),
        ensures
            r.op == self.op,
            f.ensures((self.item,), r.item),
    {
        Action { op: self.op, item: f(self.item) }
    }
}

impl<'a, T: Clone> Action<&'a T> {
    /// The same action on a clone of the item.
    pub fn cloned(self) -> (r: Action<T>)
        ensures
            r.op == self.op,
            vstd::pervasive::cloned(*self.item, r.item),
    {
        Action { op: self.op, item: self.item.clone() }
    }
}

} // verus!
