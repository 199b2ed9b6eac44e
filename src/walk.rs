use vstd::prelude::*;

verus! {

/// The explicit stack of a depth-first walk over the nodes of a trie: each
/// entry is a node and the pieces on the path from the root to the start
/// of its prefix.
pub struct Walk<K> {
    stack: Vec<(usize, Vec<K>)>,
}

impl<K> Walk<K> {
    pub closed spec fn spec_stack(&self) -> Seq<(usize, Seq<K>)> {
        self.stack@.map_values(|e: (usize, Vec<K>)| (e.0, e.1@))
    }

    /// A walk that starts at node `root`.
    pub fn start(root: usize) -> (r: Self)
        ensures
            r.spec_stack() == seq![(root, Seq::<K>::empty())],
    {
        let mut stack: Vec<(usize, Vec<K>)> = Vec::new();
        stack.push((root, Vec::new()));
        let r = Walk { stack };
        proof {
            assert(r.spec_stack() =~= seq![(root, Seq::<K>::empty())]);
        }
        r
    }

    /// Takes the entry on top of the stack.
    pub fn pop(&mut self) -> (r: Option<(usize, Vec<K>)>)
        ensures
            match r {
                None => old(self).spec_stack().len() == 0 && final(self).spec_stack() == old(self).spec_stack(),
                Some(e) => {
                    &&& old(self).spec_stack().len() > 0
                    &&& (e.0, e.1@) == old(self).spec_stack().last()
                    &&& final(self).spec_stack() == old(self).spec_stack().drop_last()
                },
            },
    {
        let r = self.stack.pop();
        proof {
            if old(self).stack@.len() > 0 {
                assert(self.spec_stack() =~= old(self).spec_stack().drop_last());
            }
        }
        r
    }

    /// Puts a node and its path on top of the stack.
    pub fn push(&mut self, node: usize, path: Vec<K>)
        ensures
            final(self).spec_stack() == old(self).spec_stack().push((node, path@)),
    {
        let ghost p = path@;
        self.stack.push((node, path));
        proof {
            assert(self.spec_stack() =~= old(self).spec_stack().push((node, p)));
        }
    }
}

} // verus!
