use crate::branch::Branch;
use crate::piece::Piece;
use std::collections::HashMap;
use std::hash::Hash;
use vstd::prelude::*;
use vstd::std_specs::hash::obeys_key_model;

verus! {

broadcast use vstd::std_specs::hash::group_hash_axioms;

/// A piece that can key a hash table.
pub trait HashPiece: Piece + Hash + Eq {
    proof fn lemma_key_model()
        ensures
            obeys_key_model::<Self>(),
    ;
}

impl HashPiece for u8 {
    proof fn lemma_key_model() {
        broadcast use vstd::std_specs::hash::axiom_u8_obeys_hash_table_key_model;

    }
}

impl HashPiece for u16 {
    proof fn lemma_key_model() {
        broadcast use vstd::std_specs::hash::axiom_u16_obeys_hash_table_key_model;

    }
}

impl HashPiece for u32 {
    proof fn lemma_key_model() {
        broadcast use vstd::std_specs::hash::axiom_u32_obeys_hash_table_key_model;

    }
}

impl HashPiece for u64 {
    proof fn lemma_key_model() {
        broadcast use vstd::std_specs::hash::axiom_u64_obeys_hash_table_key_model;

    }
}

impl HashPiece for usize {
    proof fn lemma_key_model() {
        broadcast use vstd::std_specs::hash::axiom_usize_obeys_hash_table_key_model;

    }
}

/// The hash strategy: children are found through a hash table, and listed
/// in no particular order of their pieces.
#[verifier::reject_recursive_types(K)]
pub struct HashBranch<K> {
    map: HashMap<K, usize>,
    pieces: Vec<K>,
}

impl<K: HashPiece> HashBranch<K> {
    spec fn inv(&self) -> bool {
        &&& self.pieces@.no_duplicates()
        &&& forall|p: K| #[trigger] self.map@.contains_key(p) <==> self.pieces@.contains(p)
    }

    /// The position of piece `p`, which has a child.
    fn position(&self, p: &K) -> (r: usize)
        requires
            self.pieces@.contains(*p),
        ensures
            r < self.pieces@.len(),
            self.pieces@[r as int] == *p,
    {
        let mut i: usize = 0;
        while i < self.pieces.len()
            invariant
                self.pieces@.contains(*p),
                i <= self.pieces@.len(),
                forall|j: int| 0 <= j < i ==> self.pieces@[j] != *p,
            decreases self.pieces@.len() - i,
        {
            if self.pieces[i].same(p) {
                return i;
            }
            i += 1;
        }
        proof {
            let j = choose|j: int| 0 <= j < self.pieces@.len() && self.pieces@[j] == *p;
        }
        vstd::pervasive::unreached()
    }
}

impl<K: HashPiece> Branch<K> for HashBranch<K> {
    open spec fn ordered() -> bool {
        false
    }

    closed spec fn children(&self) -> Map<K, usize> {
        self.map@
    }

    closed spec fn wf(&self) -> bool {
        self.inv()
    }

    closed spec fn size(&self) -> nat {
        self.pieces@.len()
    }

    closed spec fn piece_at(&self, i: int) -> K {
        self.pieces@[i]
    }

    closed spec fn child_at(&self, i: int) -> usize {
        self.map@[self.pieces@[i]]
    }

    proof fn lemma_size(&self) {
        assert(!Self::ordered());
        assert forall|i: int, j: int| 0 <= i < j < self.size() implies #[trigger] self.piece_at(i)
            != #[trigger] self.piece_at(j) by {
        }
        if self.size() == 0 {
            assert forall|p: K| !#[trigger] self.map@.contains_key(p) by {
            }
            assert(self.map@ =~= Map::<K, usize>::empty());
        }
        assert forall|i: int| 0 <= i < self.size() implies self.children().contains_key(#[trigger] self.piece_at(i))
            && self.children()[self.piece_at(i)] == self.child_at(i) by {
            assert(self.pieces@.contains(self.pieces@[i]));
        }
        assert forall|p: K| #[trigger] self.children().contains_key(p) implies exists|i: int|
            0 <= i < self.size() && self.piece_at(i) == p by {
            assert(self.pieces@.contains(p));
            let i = choose|i: int| 0 <= i < self.pieces@.len() && self.pieces@[i] == p;
            assert(self.piece_at(i) == p);
        }
        if self.size() == 1 {
            assert forall|p: K| #[trigger] self.map@.contains_key(p) == (p == self.piece_at(0)) by {
                assert(self.pieces@.contains(self.pieces@[0]));
            }
            assert(self.map@ =~= map![self.piece_at(0) => self.child_at(0)]);
        }
    }

    fn new() -> (r: Self) {
        let r = HashBranch { map: HashMap::new(), pieces: Vec::new() };
        proof {
            assert(r.map@ =~= Map::<K, usize>::empty());
        }
        r
    }

    fn len(&self) -> (r: usize) {
        self.pieces.len()
    }

    fn is_empty(&self) -> (r: bool) {
        proof {
            self.lemma_size();
            if self.size() > 0 {
                assert(self.children().contains_key(self.piece_at(0)));
            }
        }
        self.pieces.len() == 0
    }

    fn get(&self, p: &K) -> (r: Option<usize>) {
        proof {
            K::lemma_key_model();
        }
        match self.map.get(p) {
            Some(c) => Some(*c),
            None => None,
        }
    }

    fn insert(&mut self, p: K, child: usize) -> (r: Option<usize>) {
        proof {
            K::lemma_key_model();
        }
        let r = self.map.insert(p, child);
        if r.is_none() {
            self.pieces.push(p);
            proof {
                assert forall|q: K| #[trigger] self.map@.contains_key(q) <==> self.pieces@.contains(q) by {
                    if old(self).pieces@.contains(q) {
                        let i = choose|i: int| 0 <= i < old(self).pieces@.len() && old(self).pieces@[i] == q;
                        assert(self.pieces@[i] == q);
                    }
                    if self.pieces@.contains(q) && q != p {
                        let i = choose|i: int| 0 <= i < self.pieces@.len() && self.pieces@[i] == q;
                        assert(old(self).pieces@[i] == q);
                    }
                    assert(self.pieces@[self.pieces@.len() - 1] == p);
                }
            }
        }
        r
    }

    fn remove(&mut self, p: &K) -> (r: Option<usize>) {
        proof {
            K::lemma_key_model();
        }
        let r = self.map.remove(p);
        if r.is_some() {
            proof {
                assert(old(self).map@.contains_key(*p));
            }
            let i = self.position(p);
            self.pieces.remove(i);
            proof {
                let o = old(self).pieces@;
                assert forall|q: K| #[trigger] self.map@.contains_key(q) <==> self.pieces@.contains(q) by {
                    if o.contains(q) && q != *p {
                        let j = choose|j: int| 0 <= j < o.len() && o[j] == q;
                        if j < i {
                            assert(self.pieces@[j] == q);
                        } else {
                            assert(j != i);
                            assert(self.pieces@[j - 1] == q);
                        }
                    }
                    if self.pieces@.contains(q) {
                        let j = choose|j: int| 0 <= j < self.pieces@.len() && self.pieces@[j] == q;
                        if j < i {
                            assert(o[j] == q);
                        } else {
                            assert(o[j + 1] == q);
                        }
                    }
                }
            }
        } else {
            proof {
                assert(self.map@ =~= old(self).map@);
            }
        }
        proof {
            assert(self.map@ =~= old(self).map@.remove(*p));
        }
        r
    }

    fn single(&self) -> (r: (K, usize)) {
        proof {
            self.lemma_size();
            K::lemma_key_model();
        }
        let p = self.pieces[0];
        match self.map.get(&p) {
            Some(c) => (p, *c),
            None => {
                proof {
                    assert(self.pieces@.contains(p));
                }
                vstd::pervasive::unreached()
            },
        }
    }

    fn values(&self) -> (r: Vec<usize>) {
        proof {
            K::lemma_key_model();
        }
        let mut r: Vec<usize> = Vec::new();
        let mut i: usize = 0;
        while i < self.pieces.len()
            invariant
                self.inv(),
                obeys_key_model::<K>(),
                i <= self.pieces@.len(),
                r@.len() == i,
                forall|j: int| 0 <= j < i ==> r@[j] == #[trigger] self.map@[self.pieces@[j]],
            decreases self.pieces@.len() - i,
        {
            let p = self.pieces[i];
            match self.map.get(&p) {
                Some(c) => r.push(*c),
                None => {
                    proof {
                        assert(self.pieces@.contains(p));
                    }
                    vstd::pervasive::unreached()
                },
            }
            i += 1;
        }
        r
    }

    fn keys(&self) -> (r: Vec<K>) {
        let mut r: Vec<K> = Vec::new();
        let mut i: usize = 0;
        while i < self.pieces.len()
            invariant
                i <= self.pieces@.len(),
                r@ == self.pieces@.take(i as int),
            decreases self.pieces@.len() - i,
        {
            r.push(self.pieces[i]);
            i += 1;
            proof {
                assert(r@ =~= self.pieces@.take(i as int));
            }
        }
        r
    }
}

} // verus!
