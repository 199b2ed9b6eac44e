use crate::handle::{opt_index, Handle};
use crate::leaf::Leaf;
use vstd::prelude::*;

verus! {

/// What sits at the end of a node's compressed edge: nothing, a leaf, a
/// branch, or both.
pub enum DataHandle<V, B> {
    Empty,
    Leaf(Handle<V>),
    Branch(Handle<B>),
    Full { leaf: Handle<V>, branch: Handle<B> },
}

impl<V, B> DataHandle<V, B> {
    pub open spec fn leaf_of(&self) -> Option<usize> {
        match self {
            DataHandle::Leaf(l) => Some(l.spec_index()),
            DataHandle::Full { leaf, .. } => Some(leaf.spec_index()),
            _ => None,
        }
    }

    pub open spec fn branch_of(&self) -> Option<usize> {
        match self {
            DataHandle::Branch(b) => Some(b.spec_index()),
            DataHandle::Full { branch, .. } => Some(branch.spec_index()),
            _ => None,
        }
    }

    /// Builds the data from an optional leaf and an optional branch.
    pub fn from_parts(leaf: Option<Handle<V>>, branch: Option<Handle<B>>) -> (r: Self)
        ensures
            r.leaf_of() == opt_index(leaf),
            r.branch_of() == opt_index(branch),
    {
        match (leaf, branch) {
            (None, None) => DataHandle::Empty,
            (Some(l), None) => DataHandle::Leaf(l),
            (None, Some(b)) => DataHandle::Branch(b),
            (Some(l), Some(b)) => DataHandle::Full { leaf: l, branch: b },
        }
    }

    /// A copy of the handles.
    pub fn leak(&self) -> (r: Self)
        ensures
            r.leaf_of() == self.leaf_of(),
            r.branch_of() == self.branch_of(),
    {
        match self {
            DataHandle::Empty => DataHandle::Empty,
            DataHandle::Leaf(l) => DataHandle::Leaf(l.leak()),
            DataHandle::Branch(b) => DataHandle::Branch(b.leak()),
            DataHandle::Full { leaf, branch } => DataHandle::Full { leaf: leaf.leak(), branch: branch.leak() },
        }
    }

    pub fn leaf(&self) -> (r: Option<Handle<V>>)
        ensures
            opt_index(r) == self.leaf_of(),
    {
        match self {
            DataHandle::Leaf(l) => Some(l.leak()),
            DataHandle::Full { leaf, .. } => Some(leaf.leak()),
            _ => None,
        }
    }

    pub fn branch(&self) -> (r: Option<Handle<B>>)
        ensures
            opt_index(r) == self.branch_of(),
    {
        match self {
            DataHandle::Branch(b) => Some(b.leak()),
            DataHandle::Full { branch, .. } => Some(branch.leak()),
            _ => None,
        }
    }

    pub fn leaf_branch(&self) -> (r: (Option<Handle<V>>, Option<Handle<B>>))
        ensures
            opt_index(r.0) == self.leaf_of(),
            opt_index(r.1) == self.branch_of(),
    {
        (self.leaf(), self.branch())
    }
}

/// One edge of the trie: the pieces consumed along it without branching,
/// the data at its end, and a link to the node above it.
pub struct Node<K, V, B> {
    /// Index of the parent node in the node arena, or the null index at the root.
    previous: usize,
    prefix: Vec<K>,
    data: DataHandle<Leaf<V>, B>,
}

impl<K, V, B> Node<K, V, B> {
    pub closed spec fn spec_previous(&self) -> usize {
        self.previous
    }

    pub closed spec fn spec_prefix(&self) -> Seq<K> {
        self.prefix@
    }

    pub closed spec fn leaf_of(&self) -> Option<usize> {
        self.data.leaf_of()
    }

    pub closed spec fn branch_of(&self) -> Option<usize> {
        self.data.branch_of()
    }

    pub open spec fn spec_is_empty(&self) -> bool {
        self.leaf_of() is None && self.branch_of() is None
    }

    pub fn from(previous: usize, prefix: Vec<K>, data: DataHandle<Leaf<V>, B>) -> (r: Self)
        ensures
            r.spec_previous() == previous,
            r.spec_prefix() == prefix@,
            r.leaf_of() == data.leaf_of(),
            r.branch_of() == data.branch_of(),
    {
        Node { previous, prefix, data }
    }

    /// An empty node with no prefix and no parent.
    pub fn empty() -> (r: Self)
        ensures
            r.spec_previous() == crate::handle::NULL_INDEX,
            r.spec_prefix() == Seq::<K>::empty(),
            r.spec_is_empty(),
    {
        Node { previous: crate::handle::NULL_INDEX, prefix: Vec::new(), data: DataHandle::Empty }
    }

    pub fn is_empty(&self) -> (r: bool)
        ensures
            r == self.spec_is_empty(),
    {
        match &self.data {
            DataHandle::Empty => true,
            _ => false,
        }
    }

    pub fn prefix(&self) -> (r: &Vec<K>)
        ensures
            r@ == self.spec_prefix(),
    {
        &self.prefix
    }

    pub fn previous(&self) -> (r: usize)
        ensures
            r == self.spec_previous(),
    {
        self.previous
    }

    pub fn leaf(&self) -> (r: Option<Handle<Leaf<V>>>)
        ensures
            opt_index(r) == self.leaf_of(),
    {
        self.data.leaf()
    }

    pub fn branch(&self) -> (r: Option<Handle<B>>)
        ensures
            opt_index(r) == self.branch_of(),
    {
        self.data.branch()
    }

    pub fn leaf_branch(&self) -> (r: (Option<Handle<Leaf<V>>>, Option<Handle<B>>))
        ensures
            opt_index(r.0) == self.leaf_of(),
            opt_index(r.1) == self.branch_of(),
    {
        self.data.leaf_branch()
    }

    /// Takes the node apart.
    pub fn into_parts(self) -> (r: (usize, Vec<K>, DataHandle<Leaf<V>, B>))
        ensures
            r.0 == self.spec_previous(),
            r.1@ == self.spec_prefix(),
            r.2.leaf_of() == self.leaf_of(),
            r.2.branch_of() == self.branch_of(),
    {
        (self.previous, self.prefix, self.data)
    }

    /// Detaches the branch: `Branch` becomes `Empty` (dropping the prefix,
    /// which an empty node never keeps) and `Full` becomes `Leaf`; a node
    /// without a branch is left as it is.
    pub fn take_branch(&mut self) -> (r: Option<Handle<B>>)
        ensures
            opt_index(r) == old(self).branch_of(),
            old(self).branch_of() is None ==> *final(self) == *old(self),
            final(self).branch_of() is None,
            final(self).leaf_of() == old(self).leaf_of(),
            final(self).spec_previous() == old(self).spec_previous(),
            final(self).spec_prefix() == (if old(self).branch_of() is Some && old(self).leaf_of() is None {
                Seq::<K>::empty()
            } else {
                old(self).spec_prefix()
            }),
    {
        let (leaf, branch) = self.data.leaf_branch();
        match branch {
            None => None,
            Some(b) => {
                match leaf {
                    None => {
                        self.data = DataHandle::Empty;
                        self.prefix = Vec::new();
                    },
                    Some(l) => {
                        self.data = DataHandle::Leaf(l);
                    },
                }
                Some(b)
            },
        }
    }
}

} // verus!
