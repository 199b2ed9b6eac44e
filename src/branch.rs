use crate::piece::Piece;
use vstd::prelude::*;

verus! {

/// The children of a node where the trie diverges: one child node per piece,
/// kept sorted by the pieces' rank so that walking them visits keys in order.
pub struct BTreeBranch<K> {
    pieces: Vec<K>,
    children: Vec<usize>,
}

impl<K: Piece> View for BTreeBranch<K> {
    type V = Map<K, usize>;

    closed spec fn view(&self) -> Map<K, usize> {
        Map::new(
            |p: K| self.pieces@.contains(p),
            |p: K| self.children@[self.pieces@.index_of(p)],
        )
    }
}

/// `after` is `before` without the children that `is_empty` reports empty:
/// every child it keeps is reported not empty, every one it drops is
/// reported empty.
pub open spec fn cleaned<K, F: Fn(usize) -> bool>(before: Map<K, usize>, after: Map<K, usize>, is_empty: F) -> bool {
    &&& forall|p: K| #[trigger] after.contains_key(p) ==> before.contains_key(p) && after[p] == before[p]
    &&& forall|p: K|
        #[trigger] before.contains_key(p) ==> (after.contains_key(p) ==> is_empty.ensures((before[p],), false)) && (
        !after.contains_key(p) ==> is_empty.ensures((before[p],), true))
}

/// A branching strategy: how a node maps the next piece of a key to the
/// child node that continues it. An ordered strategy lists the children in
/// ascending order of their pieces' rank.
pub trait Branch<K: Piece>: Sized {
    /// The children are listed in ascending order of their pieces.
    spec fn ordered() -> bool;

    /// The child of each piece.
    spec fn children(&self) -> Map<K, usize>;

    spec fn wf(&self) -> bool;

    /// Number of children.
    spec fn size(&self) -> nat;

    /// The piece of the `i`-th child in ascending order.
    spec fn piece_at(&self, i: int) -> K;

    /// The `i`-th child in ascending order.
    spec fn child_at(&self, i: int) -> usize;

    /// What the size says of the children: none, one, or at least two distinct pieces.
    proof fn lemma_size(&self)
        requires
            self.wf(),
        ensures
            self.size() == 0 ==> self.children() == Map::<K, usize>::empty(),
            forall|i: int|
                0 <= i < self.size() ==> self.children().contains_key(#[trigger] self.piece_at(i)) && self.children()[self.piece_at(i)]
                    == self.child_at(i),
            forall|p: K| #[trigger]
                self.children().contains_key(p) ==> exists|i: int| 0 <= i < self.size() && self.piece_at(i) == p,
            self.size() >= 2 ==> self.piece_at(0) != self.piece_at(1),
            self.size() == 1 ==> self.children() == map![self.piece_at(0) => self.child_at(0)],
            forall|i: int, j: int| 0 <= i < j < self.size() ==> #[trigger] self.piece_at(i) != #[trigger] self.piece_at(j),
            Self::ordered() ==> forall|i: int, j: int|
                0 <= i < j < self.size() ==> (#[trigger] self.piece_at(i)).rank() < (#[trigger] self.piece_at(j)).rank(),
    ;

    fn new() -> (r: Self)
        ensures
            r.wf(),
            r.size() == 0,
            r.children() == Map::<K, usize>::empty(),
    ;

    fn len(&self) -> (r: usize)
        requires
            self.wf(),
        ensures
            r == self.size(),
    ;

    fn is_empty(&self) -> (r: bool)
        requires
            self.wf(),
        ensures
            r == (self.children() == Map::<K, usize>::empty()),
    ;

    /// The child under piece `p`, if any.
    fn get(&self, p: &K) -> (r: Option<usize>)
        requires
            self.wf(),
        ensures
            r == (if self.children().contains_key(*p) { Some(self.children()[*p]) } else { None::<usize> }),
    ;

    /// Sets the child under piece `p`, returning the child it replaces.
    fn insert(&mut self, p: K, child: usize) -> (r: Option<usize>)
        requires
            old(self).wf(),
        ensures
            final(self).wf(),
            final(self).children() == old(self).children().insert(p, child),
            r == (if old(self).children().contains_key(p) { Some(old(self).children()[p]) } else { None::<usize> }),
            final(self).size() == old(self).size() + (if old(self).children().contains_key(p) { 0int } else { 1int }),
    ;

    /// Removes the child under piece `p`, returning it.
    fn remove(&mut self, p: &K) -> (r: Option<usize>)
        requires
            old(self).wf(),
        ensures
            final(self).wf(),
            final(self).children() == old(self).children().remove(*p),
            r == (if old(self).children().contains_key(*p) { Some(old(self).children()[*p]) } else { None::<usize> }),
            final(self).size() == old(self).size() - (if old(self).children().contains_key(*p) { 1int } else { 0int }),
    ;

    /// The only child, with its piece.
    fn single(&self) -> (r: (K, usize))
        requires
            self.wf(),
            self.size() == 1,
        ensures
            self.children() == map![r.0 => r.1],
    ;

    /// The children in ascending order of their pieces.
    fn values(&self) -> (r: Vec<usize>)
        requires
            self.wf(),
        ensures
            r@.len() == self.size(),
            forall|i: int| 0 <= i < self.size() ==> r@[i] == #[trigger] self.child_at(i),
    ;

    /// The pieces in ascending order.
    fn keys(&self) -> (r: Vec<K>)
        requires
            self.wf(),
        ensures
            r@.len() == self.size(),
            forall|i: int| 0 <= i < self.size() ==> r@[i] == #[trigger] self.piece_at(i),
    ;

    /// The child under `p`; when there is none, the one that `make` gives is
    /// put there and returned.
    fn get_or_insert_with<F: FnOnce() -> usize>(&mut self, p: K, make: F) -> (r: usize)
        requires
            old(self).wf(),
            make.requires(()),
        ensures
            final(self).wf(),
            old(self).children().contains_key(p) ==> r == old(self).children()[p] && final(self).children()
                == old(self).children() && final(self).size() == old(self).size(),
            !old(self).children().contains_key(p) ==> make.ensures((), r) && final(self).children()
                == old(self).children().insert(p, r) && final(self).size() == old(self).size() + 1,
    {
        match self.get(&p) {
            Some(c) => c,
            None => {
                let c = make();
                self.insert(p, c);
                c
            },
        }
    }

    /// Removes every child that `is_empty` reports empty and returns how
    /// many children are left.
    fn cleanup<F: Fn(usize) -> bool>(&mut self, is_empty: F) -> (r: usize)
        requires
            old(self).wf(),
            forall|c: usize| #[trigger] is_empty.requires((c,)),
        ensures
            final(self).wf(),
            r == final(self).size(),
            cleaned(old(self).children(), final(self).children(), is_empty),
    {
        proof {
            self.lemma_size();
        }
        let keys = self.keys();
        let vals = self.values();
        let ghost before = self.children();
        let ghost n = keys@.len();
        proof {
            assert forall|a: int, b: int| 0 <= a < b < n implies #[trigger] keys@[a] != #[trigger] keys@[b] by {
                assert(keys@[a] == self.piece_at(a) && keys@[b] == self.piece_at(b));
            }
            assert forall|m: int| 0 <= m < n implies #[trigger] before.contains_key(keys@[m]) && before[keys@[m]]
                == vals@[m] by {
                assert(keys@[m] == self.piece_at(m) && vals@[m] == self.child_at(m));
            }
            assert forall|p: K| #[trigger] before.contains_key(p) implies exists|m: int| 0 <= m < n && keys@[m] == p by {
                let m = choose|m: int| 0 <= m < self.size() && self.piece_at(m) == p;
                assert(keys@[m] == p);
            }
        }
        let mut i: usize = 0;
        while i < keys.len()
            invariant
                self.wf(),
                forall|c: usize| #[trigger] is_empty.requires((c,)),
                n == keys@.len(),
                n == vals@.len(),
                i <= n,
                forall|a: int, b: int| 0 <= a < b < n ==> #[trigger] keys@[a] != #[trigger] keys@[b],
                forall|m: int| 0 <= m < n ==> #[trigger] before.contains_key(keys@[m]) && before[keys@[m]] == vals@[m],
                forall|p: K| #[trigger] before.contains_key(p) ==> exists|m: int| 0 <= m < n && keys@[m] == p,
                forall|p: K|
                    #[trigger] self.children().contains_key(p) ==> before.contains_key(p) && self.children()[p] == before[p],
                forall|m: int|
                    0 <= m < n ==> {
                        let p = #[trigger] keys@[m];
                        &&& m >= i ==> self.children().contains_key(p)
                        &&& m < i && self.children().contains_key(p) ==> is_empty.ensures((vals@[m],), false)
                        &&& m < i && !self.children().contains_key(p) ==> is_empty.ensures((vals@[m],), true)
                    },
            decreases n - i,
        {
            let drop = is_empty(vals[i]);
            if drop {
                self.remove(&keys[i]);
            }
            i += 1;
        }
        proof {
            assert forall|p: K| #[trigger] before.contains_key(p) implies (self.children().contains_key(p) ==> is_empty.ensures(
                (before[p],),
                false,
            )) && (!self.children().contains_key(p) ==> is_empty.ensures((before[p],), true)) by {
                let m = choose|m: int| 0 <= m < n && keys@[m] == p;
            }
        }
        self.len()
    }

    /// Removes the children that `is_empty` reports empty, then classifies
    /// the branch by the number left: none gives `Some(None)`; one is taken
    /// out and given as `Some(Some((piece, child)))`, leaving the branch
    /// empty; two or more give `None` and stay.
    fn prune<F: Fn(usize) -> bool>(&mut self, is_empty: F) -> (r: Option<Option<(K, usize)>>)
        requires
            old(self).wf(),
            forall|c: usize| #[trigger] is_empty.requires((c,)),
        ensures
            final(self).wf(),
            r == Some(None::<(K, usize)>) ==> final(self).size() == 0 && cleaned(
                old(self).children(),
                final(self).children(),
                is_empty,
            ),
            r is None ==> final(self).size() >= 2 && cleaned(old(self).children(), final(self).children(), is_empty),
            r is Some && r->Some_0 is Some ==> {
                &&& cleaned(old(self).children(), map![r->Some_0->Some_0.0 => r->Some_0->Some_0.1], is_empty)
                &&& final(self).children() == Map::<K, usize>::empty()
                &&& final(self).size() == 0
            },
    {
        let n = self.cleanup(is_empty);
        if n == 0 {
            Some(None)
        } else if n == 1 {
            let (p, c) = self.single();
            self.remove(&p);
            proof {
                assert(self.children() =~= Map::<K, usize>::empty());
            }
            Some(Some((p, c)))
        } else {
            None
        }
    }
}

impl<K: Piece> BTreeBranch<K> {
    spec fn inv(&self) -> bool {
        &&& self.pieces@.len() == self.children@.len()
        &&& forall|i: int, j: int|
            0 <= i < j < self.pieces@.len() ==> (#[trigger] self.pieces@[i]).rank()
                < (#[trigger] self.pieces@[j]).rank()
    }

    proof fn lemma_index(&self, j: int)
        requires
            self.inv(),
            0 <= j < self.pieces@.len(),
        ensures
            self@.contains_key(self.pieces@[j]),
            self.pieces@.index_of(self.pieces@[j]) == j,
            self@[self.pieces@[j]] == self.children@[j],
    {
        let p = self.pieces@[j];
        assert(self.pieces@.contains(p));
        let k = self.pieces@.index_of(p);
        assert(0 <= k < self.pieces@.len() && self.pieces@[k] == p);
        if k < j {
            assert(self.pieces@[k].rank() < self.pieces@[j].rank());
        } else if k > j {
            assert(self.pieces@[j].rank() < self.pieces@[k].rank());
        }
    }

    /// The first position whose piece does not precede `p`.
    fn search(&self, p: &K) -> (r: usize)
        requires
            self.inv(),
        ensures
            r <= self.size(),
            forall|i: int| 0 <= i < r ==> (#[trigger] self.pieces@[i]).rank() < p.rank(),
            forall|i: int| r <= i < self.size() ==> (#[trigger] self.pieces@[i]).rank() >= p.rank(),
    {
        let mut i: usize = 0;
        while i < self.pieces.len()
            invariant
                self.inv(),
                i <= self.pieces@.len(),
                forall|j: int| 0 <= j < i ==> (#[trigger] self.pieces@[j]).rank() < p.rank(),
            decreases self.pieces@.len() - i,
        {
            if !self.pieces[i].precedes(p) {
                assert forall|j: int| i <= j < self.pieces@.len() implies (#[trigger] self.pieces@[j]).rank()
                    >= p.rank() by {
                    if j > i {
                        assert(self.pieces@[i as int].rank() < self.pieces@[j].rank());
                    }
                }
                return i;
            }
            i += 1;
        }
        i
    }
}

impl<K: Piece> Branch<K> for BTreeBranch<K> {
    open spec fn ordered() -> bool {
        true
    }

    closed spec fn children(&self) -> Map<K, usize> {
        self@
    }

    closed spec fn wf(&self) -> bool {
        self.inv()
    }

    /// Number of children.
    closed spec fn size(&self) -> nat {
        self.pieces@.len()
    }

    /// The piece of the `i`-th child in ascending order.
    closed spec fn piece_at(&self, i: int) -> K {
        self.pieces@[i]
    }

    /// The `i`-th child in ascending order.
    closed spec fn child_at(&self, i: int) -> usize {
        self.children@[i]
    }

    proof fn lemma_size(&self)
    {
        assert forall|i: int|
            0 <= i < self.size() implies self@.contains_key(#[trigger] self.piece_at(i)) && self@[self.piece_at(i)]
                == self.child_at(i) by {
            self.lemma_index(i);
        }
        assert forall|p: K| #[trigger] self@.contains_key(p) implies exists|i: int|
            0 <= i < self.size() && self.piece_at(i) == p by {
            let i = self.pieces@.index_of(p);
            assert(self.piece_at(i) == p);
        }
        if self.size() == 0 {
            assert(self@ =~= Map::<K, usize>::empty());
        }
        if self.size() >= 2 {
            assert(self.pieces@[0].rank() < self.pieces@[1].rank());
        }
        if self.size() == 1 {
            self.lemma_index(0);
            assert(self@ =~= map![self.piece_at(0) => self.child_at(0)]);
        }
    }

    fn new() -> (r: Self)
    {
        let r = BTreeBranch { pieces: Vec::new(), children: Vec::new() };
        assert(r@ =~= Map::<K, usize>::empty());
        r
    }

    fn len(&self) -> (r: usize)
    {
        self.pieces.len()
    }

    fn is_empty(&self) -> (r: bool)
    {
        proof {
            self.lemma_size();
            if self.size() > 0 {
                assert(self@.contains_key(self.piece_at(0)));
            }
        }
        self.pieces.len() == 0
    }

    fn get(&self, p: &K) -> (r: Option<usize>)
    {
        let i = self.search(p);
        if i < self.pieces.len() && self.pieces[i].same(p) {
            proof {
                self.lemma_index(i as int);
            }
            Some(self.children[i])
        } else {
            proof {
                if self@.contains_key(*p) {
                    let k = self.pieces@.index_of(*p);
                    if k != i {
                        assert(self.pieces@[k] == *p);
                    } else {
                        assert(self.pieces@[k] == *p);
                    }
                    if (i as int) < self.size() {
                        if k > i {
                            assert(self.pieces@[i as int].rank() < self.pieces@[k].rank());
                        }
                        K::lemma_rank_injective(self.pieces@[i as int], *p);
                    }
                }
            }
            None
        }
    }

    fn insert(&mut self, p: K, child: usize) -> (r: Option<usize>)
    {
        let ghost prev = *self;
        let r = self.get(&p);
        let i = self.search(&p);
        if i < self.pieces.len() && self.pieces[i].same(&p) {
            proof {
                prev.lemma_index(i as int);
            }
            self.children.set(i, child);
            proof {
                assert(self.pieces@ == prev.pieces@);
                assert forall|q: K| self@.contains_key(q) implies self@[q] == prev@.insert(p, child)[q] by {
                    if q == p {
                        prev.lemma_index(i as int);
                    } else {
                        let k = prev.pieces@.index_of(q);
                        assert(prev.pieces@[k] == q);
                        assert(k != i);
                    }
                }
                assert(self@ =~= prev@.insert(p, child));
            }
            r
        } else {
            self.pieces.insert(i, p);
            self.children.insert(i, child);
            proof {
                let ps = self.pieces@;
                assert forall|a: int, b: int| 0 <= a < b < ps.len() implies (#[trigger] ps[a]).rank()
                    < (#[trigger] ps[b]).rank() by {
                    if (i as int) < prev.size() && b > i {
                        K::lemma_rank_injective(prev.pieces@[i as int], p);
                    }
                    if a < i && b < i {
                        assert(ps[a] == prev.pieces@[a] && ps[b] == prev.pieces@[b]);
                    } else if a < i && b == i {
                        assert(ps[a] == prev.pieces@[a]);
                    } else if a < i {
                        assert(ps[a] == prev.pieces@[a] && ps[b] == prev.pieces@[b - 1]);
                        assert(prev.pieces@[b - 1].rank() >= p.rank());
                    } else if a == i {
                        assert(ps[b] == prev.pieces@[b - 1]);
                        assert(prev.pieces@[b - 1].rank() >= p.rank());
                        if prev.pieces@[b - 1].rank() == p.rank() {
                            K::lemma_rank_injective(prev.pieces@[b - 1], p);
                            if b - 1 > i {
                                assert(prev.pieces@[i as int].rank() < prev.pieces@[b - 1].rank());
                            }
                        }
                    } else {
                        assert(ps[a] == prev.pieces@[a - 1] && ps[b] == prev.pieces@[b - 1]);
                    }
                }
                assert(!prev@.contains_key(p)) by {
                    if prev@.contains_key(p) {
                        let k = prev.pieces@.index_of(p);
                        assert(prev.pieces@[k] == p);
                        if k < i {
                            assert(prev.pieces@[k].rank() < p.rank());
                        } else if k > i {
                            assert(prev.pieces@[i as int].rank() < prev.pieces@[k].rank());
                            K::lemma_rank_injective(prev.pieces@[i as int], p);
                        }
                    }
                }
                assert forall|q: K| #[trigger] self@.contains_key(q) == prev@.insert(p, child).contains_key(q) by {
                    assert(self.pieces@[i as int] == p);
                    if self.pieces@.contains(q) {
                        let k = self.pieces@.index_of(q);
                        assert(self.pieces@[k] == q);
                        if k < i {
                            assert(prev.pieces@[k] == q);
                        } else if k > i {
                            assert(prev.pieces@[k - 1] == q);
                        }
                    }
                    if prev.pieces@.contains(q) {
                        let k = prev.pieces@.index_of(q);
                        if k < i {
                            assert(self.pieces@[k] == q);
                        } else {
                            assert(self.pieces@[k + 1] == q);
                        }
                    }
                }
                assert forall|q: K| self@.contains_key(q) implies self@[q] == prev@.insert(p, child)[q] by {
                    if q == p {
                        self.lemma_index(i as int);
                    } else {
                        let k = prev.pieces@.index_of(q);
                        assert(prev.pieces@[k] == q);
                        prev.lemma_index(k);
                        if k < i {
                            self.lemma_index(k);
                        } else {
                            self.lemma_index(k + 1);
                        }
                    }
                }
                assert(self@ =~= prev@.insert(p, child));
            }
            r
        }
    }

    fn remove(&mut self, p: &K) -> (r: Option<usize>)
    {
        let ghost prev = *self;
        let r = self.get(p);
        let i = self.search(p);
        if i < self.pieces.len() && self.pieces[i].same(p) {
            self.pieces.remove(i);
            self.children.remove(i);
            proof {
                prev.lemma_index(i as int);
                let ps = self.pieces@;
                assert forall|a: int, b: int| 0 <= a < b < ps.len() implies (#[trigger] ps[a]).rank()
                    < (#[trigger] ps[b]).rank() by {
                    if a < i && b < i {
                        assert(ps[a] == prev.pieces@[a] && ps[b] == prev.pieces@[b]);
                    } else if a < i {
                        assert(ps[a] == prev.pieces@[a] && ps[b] == prev.pieces@[b + 1]);
                    } else {
                        assert(ps[a] == prev.pieces@[a + 1] && ps[b] == prev.pieces@[b + 1]);
                    }
                }
                assert forall|q: K| #[trigger] self@.contains_key(q) == prev@.remove(*p).contains_key(q) by {
                    if self.pieces@.contains(q) {
                        let k = self.pieces@.index_of(q);
                        if k < i {
                            assert(prev.pieces@[k] == q);
                            prev.lemma_index(k);
                        } else {
                            assert(prev.pieces@[k + 1] == q);
                            prev.lemma_index(k + 1);
                        }
                    }
                    if prev.pieces@.contains(q) && q != *p {
                        let k = prev.pieces@.index_of(q);
                        if k < i {
                            assert(self.pieces@[k] == q);
                        } else {
                            assert(k != i);
                            assert(self.pieces@[k - 1] == q);
                        }
                    }
                }
                assert forall|q: K| self@.contains_key(q) implies self@[q] == prev@.remove(*p)[q] by {
                    let k = prev.pieces@.index_of(q);
                    assert(prev.pieces@[k] == q);
                    prev.lemma_index(k);
                    assert(k != i);
                    if k < i {
                        self.lemma_index(k);
                    } else {
                        self.lemma_index(k - 1);
                    }
                }
                assert(self@ =~= prev@.remove(*p));
            }
            r
        } else {
            proof {
                assert(!prev@.contains_key(*p));
                assert(self@ =~= prev@.remove(*p));
            }
            r
        }
    }

    fn single(&self) -> (r: (K, usize))
    {
        proof {
            self.lemma_size();
        }
        (self.pieces[0], self.children[0])
    }

    fn values(&self) -> (r: Vec<usize>)
    {
        self.children.clone()
    }

    fn keys(&self) -> (r: Vec<K>)
    {
        let mut r: Vec<K> = Vec::new();
        let mut i: usize = 0;
        while i < self.pieces.len()
            invariant
                self.wf(),
                i <= self.pieces@.len(),
                r@ == self.pieces@.subrange(0, i as int),
            decreases self.pieces@.len() - i,
        {
            r.push(self.pieces[i]);
            i += 1;
            proof {
                assert(r@ =~= self.pieces@.subrange(0, i as int));
            }
        }
        proof {
            assert(r@ =~= self.pieces@);
        }
        r
    }
}

} // verus!
