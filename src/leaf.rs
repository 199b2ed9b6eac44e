use vstd::prelude::*;

verus! {

/// A stored value, kept in its own arena slot so that it can be replaced or
/// moved independently of the node that currently claims it.
pub struct Leaf<V> {
    value: V,
}

impl<V> Leaf<V> {
    pub closed spec fn spec_value(&self) -> V {
        self.value
    }

    pub fn new(value: V) -> (r: Self)
        ensures
            r.spec_value() == value,
    {
        Leaf { value }
    }

    pub fn get(&self) -> (r: &V)
        ensures
            *r == self.spec_value(),
    {
        &self.value
    }

    pub fn get_mut(&mut self) -> (r: &mut V)
        ensures
            *r == old(self).spec_value(),
            final(self).spec_value() == *final(r),
    {
        &mut self.value
    }

    /// Puts `value` in the leaf and returns the one it held.
    pub fn replace(&mut self, value: V) -> (r: V)
        ensures
            r == old(self).spec_value(),
            final(self).spec_value() == value,
    {
        let mut other = value;
        std::mem::swap(&mut self.value, &mut other);
        other
    }

    pub fn unwrap(self) -> (r: V)
        ensures
            r == self.spec_value(),
    {
        self.value
    }
}

} // verus!
