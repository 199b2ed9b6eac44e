use crate::handle::{Handle, NULL_INDEX};
use vstd::prelude::*;

verus! {

/// An index-addressed pool of values: inserting hands out a handle, and a
/// removed slot is reused by a later insert.
pub struct Arena<T> {
    slots: Vec<Option<T>>,
    vacant: Vec<usize>,
}

impl<T> View for Arena<T> {
    type V = Map<usize, T>;

    closed spec fn view(&self) -> Map<usize, T> {
        Map::new(
            |i: usize| (i as int) < self.slots@.len() && self.slots@[i as int] is Some,
            |i: usize| self.slots@[i as int]->Some_0,
        )
    }
}

impl<T> Arena<T> {
    /// The vacant list names distinct empty slots, and no slot has the null index.
    pub closed spec fn wf(&self) -> bool {
        &&& self.slots@.len() <= NULL_INDEX
        &&& self.vacant@.no_duplicates()
        &&& forall|j: int|
            0 <= j < self.vacant@.len() ==> {
                let i = #[trigger] self.vacant@[j];
                &&& (i as int) < self.slots@.len()
                &&& self.slots@[i as int] is None
            }
    }

    /// Only finitely many slots are live.
    pub proof fn lemma_finite(&self)
        requires
            self.wf(),
        ensures
            self@.dom().finite(),
    {
        lemma_below_finite(self.slots@.len() as int);
        assert(self@.dom().subset_of(Set::new(|i: usize| (i as int) < self.slots@.len())));
        vstd::set_lib::lemma_len_subset(self@.dom(), Set::new(|i: usize| (i as int) < self.slots@.len()));
    }

    pub fn new() -> (r: Self)
        ensures
            r.wf(),
            r@ == Map::<usize, T>::empty(),
    {
        let r = Arena { slots: Vec::new(), vacant: Vec::new() };
        assert(r@ =~= Map::<usize, T>::empty());
        r
    }

    pub fn with_capacity(capacity: usize) -> (r: Self)
        ensures
            r.wf(),
            r@ == Map::<usize, T>::empty(),
    {
        let r = Arena { slots: Vec::with_capacity(capacity), vacant: Vec::new() };
        assert(r@ =~= Map::<usize, T>::empty());
        r
    }

    /// Stores `value` in a free slot and returns its handle.
    pub fn insert(&mut self, value: T) -> (h: Handle<T>)
        requires
            old(self).wf(),
        ensures
            final(self).wf(),
            !old(self)@.contains_key(h.spec_index()),
            h.spec_index() != NULL_INDEX,
            final(self)@ == old(self)@.insert(h.spec_index(), value),
            h.spec_index() == old(self).spec_next(),
    {
        match self.vacant.pop() {
            Some(i) => {
                proof {
                    assert(self.vacant@ == old(self).vacant@.drop_last());
                    assert(old(self).vacant@[old(self).vacant@.len() - 1] == i);
                    assert forall|j: int| 0 <= j < self.vacant@.len() implies #[trigger] self.vacant@[j] != i by {
                        assert(old(self).vacant@[j] == self.vacant@[j]);
                    }
                }
                self.slots.push(Some(value));
                let _ = self.slots.swap_remove(i);
                proof {
                    assert forall|j: int| 0 <= j < self.vacant@.len() implies {
                        let k = #[trigger] self.vacant@[j];
                        &&& (k as int) < self.slots@.len()
                        &&& self.slots@[k as int] is None
                    } by {
                        assert(old(self).vacant@[j] == self.vacant@[j]);
                    }
                    assert(self@ =~= old(self)@.insert(i, value));
                }
                Handle::from(i)
            },
            None => {
                let i = self.slots.len();
                self.slots.push(Some(value));
                proof {
                    assert(self.slots@.len() == self.slots.len());
                    assert(self@ =~= old(self)@.insert(i, value));
                }
                Handle::from(i)
            },
        }
    }

    /// The slot that the next insert fills.
    pub closed spec fn spec_next(&self) -> usize {
        if self.vacant@.len() > 0 {
            self.vacant@.last()
        } else {
            self.slots@.len() as usize
        }
    }

    fn next_index(&self) -> (i: usize)
        requires
            self.wf(),
        ensures
            i == self.spec_next(),
    {
        if self.vacant.len() > 0 {
            self.vacant[self.vacant.len() - 1]
        } else {
            self.slots.len()
        }
    }

    /// Stores the value that `f` makes from the handle it will be stored
    /// under, so that a value can hold its own handle.
    pub fn insert_with<F: FnOnce(Handle<T>) -> T>(&mut self, f: F) -> (h: Handle<T>)
        requires
            old(self).wf(),
            forall|k: Handle<T>| #[trigger] f.requires((k,)),
        ensures
            final(self).wf(),
            !old(self)@.contains_key(h.spec_index()),
            h.spec_index() != NULL_INDEX,
            final(self)@ == old(self)@.insert(h.spec_index(), final(self)@[h.spec_index()]),
            exists|k: Handle<T>| k.spec_index() == h.spec_index() && #[trigger] f.ensures((k,), final(self)@[h.spec_index()]),
    {
        let i = self.next_index();
        let k = Handle::from(i);
        let ghost gk = k;
        let value = f(k);
        let h = self.insert(value);
        proof {
            assert(gk.spec_index() == h.spec_index());
            assert(f.ensures((gk,), value));
        }
        h
    }

    pub fn contains(&self, h: &Handle<T>) -> (r: bool)
        requires
            self.wf(),
        ensures
            r == self@.contains_key(h.spec_index()),
    {
        h.index() < self.slots.len() && self.slots[h.index()].is_some()
    }

    /// The value in a live slot.
    pub fn get(&self, h: &Handle<T>) -> (r: &T)
        requires
            self@.contains_key(h.spec_index()),
        ensures
            *r == self@[h.spec_index()],
    {
        match &self.slots[h.index()] {
            Some(v) => v,
            None => {
                proof {
                    assert(false);
                }
                vstd::pervasive::unreached()
            },
        }
    }

    /// The value in a live slot, to be changed in place.
    pub fn get_mut(&mut self, h: &Handle<T>) -> (r: &mut T)
        requires
            old(self).wf(),
            old(self)@.contains_key(h.spec_index()),
        ensures
            *r == old(self)@[h.spec_index()],
            final(self).wf(),
            final(self)@ == old(self)@.insert(h.spec_index(), *final(r)),
    {
        let i = h.index();
        let slot = &mut self.slots[i];
        match slot.as_mut() {
            Some(v) => v,
            None => {
                proof {
                    assert(false);
                }
                vstd::pervasive::unreached()
            },
        }
    }

    /// Puts `value` in a live slot and returns what was there.
    pub fn replace(&mut self, h: &Handle<T>, value: T) -> (r: T)
        requires
            old(self).wf(),
            old(self)@.contains_key(h.spec_index()),
        ensures
            final(self).wf(),
            r == old(self)@[h.spec_index()],
            final(self)@ == old(self)@.insert(h.spec_index(), value),
    {
        let i = h.index();
        self.slots.push(Some(value));
        let old_slot = self.slots.swap_remove(i);
        proof {
            assert(self@ =~= old(self)@.insert(i, value));
        }
        match old_slot {
            Some(v) => v,
            None => {
                proof {
                    assert(false);
                }
                vstd::pervasive::unreached()
            },
        }
    }

    /// Empties a live slot and returns its value; the slot becomes reusable.
    pub fn remove(&mut self, h: Handle<T>) -> (r: T)
        requires
            old(self).wf(),
            old(self)@.contains_key(h.spec_index()),
        ensures
            final(self).wf(),
            r == old(self)@[h.spec_index()],
            final(self)@ == old(self)@.remove(h.spec_index()),
    {
        let i = h.index();
        self.slots.push(None);
        let old_slot = self.slots.swap_remove(i);
        proof {
            assert forall|j: int| 0 <= j < self.vacant@.len() implies #[trigger] self.vacant@[j] != i by {
                assert(old(self).slots@[self.vacant@[j] as int] is None);
            }
        }
        self.vacant.push(i);
        proof {
            assert(self.vacant@.last() == i);
            assert forall|j: int| 0 <= j < self.vacant@.len() implies {
                let k = #[trigger] self.vacant@[j];
                &&& (k as int) < self.slots@.len()
                &&& self.slots@[k as int] is None
            } by {
                if j < self.vacant@.len() - 1 {
                    assert(self.vacant@[j] == old(self).vacant@[j]);
                }
            }
            assert(self@ =~= old(self)@.remove(i));
        }
        match old_slot {
            Some(v) => v,
            None => {
                proof {
                    assert(false);
                }
                vstd::pervasive::unreached()
            },
        }
    }

    /// Drops every value.
    pub fn clear(&mut self)
        ensures
            final(self).wf(),
            final(self)@ == Map::<usize, T>::empty(),
    {
        self.slots.clear();
        self.vacant.clear();
        proof {
            assert(self@ =~= Map::<usize, T>::empty());
        }
    }
}

proof fn lemma_below_finite(n: int)
    requires
        0 <= n <= usize::MAX,
    ensures
        Set::new(|i: usize| (i as int) < n).finite(),
    decreases n,
{
    if n == 0 {
        assert(Set::new(|i: usize| (i as int) < n) =~= Set::<usize>::empty());
    } else {
        lemma_below_finite(n - 1);
        assert(Set::new(|i: usize| (i as int) < n) =~= Set::new(|i: usize| (i as int) < n - 1).insert(
            (n - 1) as usize,
        ));
    }
}

} // verus!
