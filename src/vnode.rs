use vstd::prelude::*;

verus! {

/// A position in the trie: node `handle`, after the first `prefix_len`
/// pieces of its prefix. When `prefix_len` is the prefix's length the
/// cursor sits at the node's end, where data can live; below that it sits
/// strictly inside the compressed edge.
pub struct VNode {
    handle: usize,
    prefix_len: usize,
}

impl VNode {
    pub closed spec fn spec_handle(&self) -> usize {
        self.handle
    }

    pub closed spec fn spec_prefix_len(&self) -> usize {
        self.prefix_len
    }

    /// The cursor at the start of node `root`.
    pub fn start(root: usize) -> (r: Self)
        ensures
            r.spec_handle() == root,
            r.spec_prefix_len() == 0,
    {
        VNode { handle: root, prefix_len: 0 }
    }

    /// The cursor at `prefix_len` pieces into node `handle`.
    pub fn at(handle: usize, prefix_len: usize) -> (r: Self)
        ensures
            r.spec_handle() == handle,
            r.spec_prefix_len() == prefix_len,
    {
        VNode { handle, prefix_len }
    }

    /// A copy of the cursor.
    pub fn leak(&self) -> (r: Self)
        ensures
            r == *self,
    {
        VNode { handle: self.handle, prefix_len: self.prefix_len }
    }

    pub fn handle(&self) -> (r: usize)
        ensures
            r == self.spec_handle(),
    {
        self.handle
    }

    pub fn prefix_len(&self) -> (r: usize)
        ensures
            r == self.spec_prefix_len(),
    {
        self.prefix_len
    }
}

} // verus!
