use crate::branch::Branch;
use crate::piece::Piece;
use vstd::prelude::*;

verus! {

/// The byte strategy: one slot for each of the 256 bytes, so that a child is
/// found without search.
pub struct ByteBranch {
    slots: Vec<Option<usize>>,
    count: usize,
    /// The bytes that have a child, ascending.
    order: Ghost<Seq<u8>>,
}

spec fn ascending(s: Seq<u8>) -> bool {
    forall|i: int, j: int| 0 <= i < j < s.len() ==> #[trigger] s[i] < #[trigger] s[j]
}

/// An ascending sequence of bytes holds each byte at most once, so its
/// `i`-th byte is at least `i`.
proof fn lemma_ascending_bound(s: Seq<u8>, i: int)
    requires
        ascending(s),
        0 <= i < s.len(),
    ensures
        s[i] >= i,
    decreases i,
{
    if i > 0 {
        lemma_ascending_bound(s, i - 1);
    }
}

/// Where `p` goes in the ascending sequence `s`.
proof fn split_point(s: Seq<u8>, p: u8) -> (k: int)
    requires
        ascending(s),
    ensures
        0 <= k <= s.len(),
        forall|m: int| 0 <= m < k ==> #[trigger] s[m] < p,
        forall|m: int| k <= m < s.len() ==> #[trigger] s[m] >= p,
    decreases s.len(),
{
    if s.len() == 0 {
        0
    } else if s.last() < p {
        s.len() as int
    } else {
        let k = split_point(s.drop_last(), p);
        assert forall|m: int| 0 <= m < k implies #[trigger] s[m] < p by {
            assert(s[m] == s.drop_last()[m]);
        }
        assert forall|m: int| k <= m < s.len() implies #[trigger] s[m] >= p by {
            if m < s.len() - 1 {
                assert(s[m] == s.drop_last()[m]);
            }
        }
        k
    }
}

impl ByteBranch {
    spec fn inv(&self) -> bool {
        &&& self.slots@.len() == 256
        &&& ascending(self.order@)
        &&& self.count == self.order@.len()
        &&& forall|b: u8| #[trigger] self.slots@[b as int] is Some <==> self.order@.contains(b)
    }

    proof fn lemma_unique(&self, i: int, j: int)
        requires
            self.inv(),
            0 <= i < self.order@.len(),
            0 <= j < self.order@.len(),
            self.order@[i] == self.order@[j],
        ensures
            i == j,
    {
    }
}

impl Branch<u8> for ByteBranch {
    open spec fn ordered() -> bool {
        true
    }

    closed spec fn children(&self) -> Map<u8, usize> {
        Map::new(|p: u8| self.slots@[p as int] is Some, |p: u8| self.slots@[p as int]->Some_0)
    }

    closed spec fn wf(&self) -> bool {
        self.inv()
    }

    closed spec fn size(&self) -> nat {
        self.order@.len()
    }

    closed spec fn piece_at(&self, i: int) -> u8 {
        self.order@[i]
    }

    closed spec fn child_at(&self, i: int) -> usize {
        self.slots@[self.order@[i] as int]->Some_0
    }

    proof fn lemma_size(&self) {
        if self.size() == 0 {
            assert forall|p: u8| !#[trigger] self.children().contains_key(p) by {
                assert(!self.order@.contains(p));
            }
            assert(self.children() =~= Map::<u8, usize>::empty());
        }
        assert forall|i: int| 0 <= i < self.size() implies self.children().contains_key(#[trigger] self.piece_at(i))
            && self.children()[self.piece_at(i)] == self.child_at(i) by {
            assert(self.order@.contains(self.order@[i]));
        }
        assert forall|p: u8| #[trigger] self.children().contains_key(p) implies exists|i: int|
            0 <= i < self.size() && self.piece_at(i) == p by {
            assert(self.order@.contains(p));
            let i = choose|i: int| 0 <= i < self.order@.len() && self.order@[i] == p;
            assert(self.piece_at(i) == p);
        }
        if self.size() == 1 {
            assert forall|p: u8| #[trigger] self.children().contains_key(p) == (p == self.piece_at(0)) by {
                if self.order@.contains(p) {
                    let i = choose|i: int| 0 <= i < self.order@.len() && self.order@[i] == p;
                    assert(i == 0);
                }
                assert(self.order@.contains(self.order@[0]));
            }
            assert(self.children() =~= map![self.piece_at(0) => self.child_at(0)]);
        }
    }

    fn new() -> (r: Self) {
        let mut slots: Vec<Option<usize>> = Vec::new();
        while slots.len() < 256
            invariant
                slots@.len() <= 256,
                forall|i: int| 0 <= i < slots@.len() ==> #[trigger] slots@[i] is None,
            decreases 256 - slots@.len(),
        {
            slots.push(None);
        }
        let r = ByteBranch { slots, count: 0, order: Ghost(Seq::empty()) };
        proof {
            assert forall|b: u8| #[trigger] r.slots@[b as int] is Some <==> r.order@.contains(b) by {
            }
            assert(r.children() =~= Map::<u8, usize>::empty());
        }
        r
    }

    fn len(&self) -> (r: usize) {
        self.count
    }

    fn is_empty(&self) -> (r: bool) {
        proof {
            self.lemma_size();
            if self.size() > 0 {
                assert(self.children().contains_key(self.piece_at(0)));
            }
        }
        self.count == 0
    }

    fn get(&self, p: &u8) -> (r: Option<usize>) {
        self.slots[*p as usize]
    }

    fn insert(&mut self, p: u8, child: usize) -> (r: Option<usize>) {
        let prev = self.slots[p as usize];
        self.slots.set(p as usize, Some(child));
        if prev.is_none() {
            proof {
                let s = self.order@;
                assert(!s.contains(p));
                let k = split_point(s, p);
                let t = s.insert(k, p);
                assert forall|i: int, j: int| 0 <= i < j < t.len() implies #[trigger] t[i] < #[trigger] t[j] by {
                    if j < k {
                        assert(t[i] == s[i] && t[j] == s[j]);
                    } else if j == k {
                        assert(t[i] == s[i]);
                    } else if i < k {
                        assert(t[i] == s[i] && t[j] == s[j - 1]);
                        assert(s[j - 1] != p);
                    } else if i == k {
                        assert(t[j] == s[j - 1]);
                        assert(s[j - 1] != p);
                    } else {
                        assert(t[i] == s[i - 1] && t[j] == s[j - 1]);
                    }
                }
                assert forall|b: u8| t.contains(b) <==> s.contains(b) || b == p by {
                    if t.contains(b) {
                        let i = choose|i: int| 0 <= i < t.len() && t[i] == b;
                        if i < k {
                            assert(s[i] == b);
                        } else if i > k {
                            assert(s[i - 1] == b);
                        }
                    }
                    if s.contains(b) {
                        let i = choose|i: int| 0 <= i < s.len() && s[i] == b;
                        if i < k {
                            assert(t[i] == b);
                        } else {
                            assert(t[i + 1] == b);
                        }
                    }
                    if b == p {
                        assert(t[k] == p);
                    }
                }
                lemma_ascending_bound(t, t.len() - 1);
                self.order@ = t;
            }
            self.count = self.count + 1;
        }
        proof {
            assert forall|b: u8| #[trigger] self.slots@[b as int] is Some <==> self.order@.contains(b) by {
                if b != p {
                    assert(self.slots@[b as int] == old(self).slots@[b as int]);
                }
            }
            assert(self.children() =~= old(self).children().insert(p, child));
        }
        prev
    }

    fn remove(&mut self, p: &u8) -> (r: Option<usize>) {
        let prev = self.slots[*p as usize];
        if prev.is_some() {
            self.slots.set(*p as usize, None);
            proof {
                let s = self.order@;
                assert(s.contains(*p));
                let k = choose|k: int| 0 <= k < s.len() && s[k] == *p;
                let t = s.remove(k);
                assert forall|i: int, j: int| 0 <= i < j < t.len() implies #[trigger] t[i] < #[trigger] t[j] by {
                    if j < k {
                        assert(t[i] == s[i] && t[j] == s[j]);
                    } else if i < k {
                        assert(t[i] == s[i] && t[j] == s[j + 1]);
                    } else {
                        assert(t[i] == s[i + 1] && t[j] == s[j + 1]);
                    }
                }
                assert forall|b: u8| t.contains(b) <==> s.contains(b) && b != *p by {
                    if t.contains(b) {
                        let i = choose|i: int| 0 <= i < t.len() && t[i] == b;
                        if i < k {
                            assert(s[i] == b);
                            if b == *p {
                                old(self).lemma_unique(i, k);
                            }
                        } else {
                            assert(s[i + 1] == b);
                            if b == *p {
                                old(self).lemma_unique(i + 1, k);
                            }
                        }
                    }
                    if s.contains(b) && b != *p {
                        let i = choose|i: int| 0 <= i < s.len() && s[i] == b;
                        if i < k {
                            assert(t[i] == b);
                        } else {
                            assert(i != k);
                            assert(t[i - 1] == b);
                        }
                    }
                }
                self.order@ = t;
            }
            self.count = self.count - 1;
        }
        proof {
            assert forall|b: u8| #[trigger] self.slots@[b as int] is Some <==> self.order@.contains(b) by {
                if b != *p {
                    assert(self.slots@[b as int] == old(self).slots@[b as int]);
                }
            }
            assert(self.children() =~= old(self).children().remove(*p));
        }
        prev
    }

    fn single(&self) -> (r: (u8, usize)) {
        proof {
            self.lemma_size();
            assert(self.order@.contains(self.order@[0]));
        }
        let mut i: usize = 0;
        while i < 256
            invariant
                self.inv(),
                self.order@.len() == 1,
                i <= 256,
                forall|b: u8| (b as int) < i ==> #[trigger] self.slots@[b as int] is None,
            decreases 256 - i,
        {
            match self.slots[i] {
                Some(c) => {
                    proof {
                        assert(self.order@.contains(i as u8));
                        assert(self.children() =~= map![i as u8 => c]);
                    }
                    return (i as u8, c);
                },
                None => {
                    proof {
                        assert forall|b: u8| (b as int) < i + 1 implies #[trigger] self.slots@[b as int] is None by {
                            if b as int == i as int {
                                assert(self.slots@[i as int] is None);
                            }
                        }
                    }
                },
            }
            i += 1;
        }
        proof {
            let b = self.order@[0];
            assert(self.order@.contains(b));
            assert(self.slots@[b as int] is None);
        }
        vstd::pervasive::unreached()
    }

    fn values(&self) -> (r: Vec<usize>) {
        let (_, r) = self.scan();
        r
    }

    fn keys(&self) -> (r: Vec<u8>) {
        let (r, _) = self.scan();
        r
    }
}

impl ByteBranch {
    /// The bytes that have a child and their children, ascending.
    fn scan(&self) -> (r: (Vec<u8>, Vec<usize>))
        requires
            self.inv(),
        ensures
            r.0@.len() == self.size(),
            r.1@.len() == self.size(),
            forall|i: int| 0 <= i < self.size() ==> r.0@[i] == #[trigger] self.piece_at(i),
            forall|i: int| 0 <= i < self.size() ==> r.1@[i] == #[trigger] self.child_at(i),
    {
        let mut keys: Vec<u8> = Vec::new();
        let mut vals: Vec<usize> = Vec::new();
        let mut i: usize = 0;
        while i < 256
            invariant
                self.inv(),
                i <= 256,
                keys@.len() == vals@.len(),
                keys@.len() <= self.order@.len(),
                forall|m: int| 0 <= m < keys@.len() ==> keys@[m] == #[trigger] self.order@[m],
                forall|m: int| 0 <= m < keys@.len() ==> vals@[m] == (#[trigger] self.slots@[self.order@[m] as int])->Some_0,
                keys@.len() < self.order@.len() ==> self.order@[keys@.len() as int] >= i,
                keys@.len() > 0 ==> (self.order@[keys@.len() - 1] as int) < i,
            decreases 256 - i,
        {
            let c = keys.len();
            match self.slots[i] {
                Some(v) => {
                    proof {
                        let b = i as u8;
                        assert(self.slots@[b as int] is Some);
                        assert(self.order@.contains(b));
                        let m = choose|m: int| 0 <= m < self.order@.len() && self.order@[m] == b;
                        if m < c {
                            assert(self.order@[m] <= self.order@[c - 1]);
                        }
                        if m > c {
                            assert(self.order@[c as int] < self.order@[m]);
                        }
                        assert(m == c);
                    }
                    keys.push(i as u8);
                    vals.push(v);
                },
                None => {
                    proof {
                        if c < self.order@.len() {
                            let b = self.order@[c as int];
                            assert(self.order@.contains(b));
                            if b as int == i as int {
                                assert(self.slots@[b as int] is Some);
                            }
                        }
                    }
                },
            }
            i += 1;
        }
        proof {
            if keys@.len() < self.order@.len() {
                assert(self.order@[keys@.len() as int] <= 255);
            }
        }
        (keys, vals)
    }
}

} // verus!
