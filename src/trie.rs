use crate::arena::Arena;
use crate::branch::{BTreeBranch, Branch};
use crate::handle::Handle;
use crate::leaf::Leaf;
use crate::node::{DataHandle, Node};
use crate::piece::Piece;
use crate::vnode::VNode;
use crate::walk::Walk;
use vstd::prelude::*;

verus! {

/// `a` is a prefix of `b`.
pub open spec fn is_prefix<K>(a: Seq<K>, b: Seq<K>) -> bool {
    a.len() <= b.len() && b.take(a.len() as int) == a
}

/// `a` comes before `b` in the order of keys: it is a proper prefix of `b`,
/// or at the first position where they differ its piece ranks lower.
pub open spec fn key_lt<K: Piece>(a: Seq<K>, b: Seq<K>) -> bool {
    ||| (a.len() < b.len() && b.take(a.len() as int) == a)
    ||| exists|d: int|
        #![trigger a[d], b[d]]
        0 <= d < a.len() && d < b.len() && a.take(d) == b.take(d) && a[d].rank() < b[d].rank()
}

/// `m` after inserting each pair of `pairs` in order.
pub open spec fn inserted_all<K, V>(m: Map<Seq<K>, V>, pairs: Seq<(Seq<K>, V)>) -> Map<Seq<K>, V>
    decreases pairs.len(),
{
    if pairs.len() == 0 {
        m
    } else {
        inserted_all(m, pairs.drop_last()).insert(pairs.last().0, pairs.last().1)
    }
}

/// `m` after removing each key of `keys` in order.
pub open spec fn removed_all<K, V>(m: Map<Seq<K>, V>, keys: Seq<Seq<K>>) -> Map<Seq<K>, V>
    decreases keys.len(),
{
    if keys.len() == 0 {
        m
    } else {
        removed_all(m, keys.drop_last()).remove(keys.last())
    }
}

proof fn lemma_inserted_dom<K, V>(m: Map<Seq<K>, V>, pairs: Seq<(Seq<K>, V)>, k: Seq<K>)
    requires
        inserted_all(m, pairs).contains_key(k),
    ensures
        m.contains_key(k) || exists|i: int| 0 <= i < pairs.len() && (#[trigger] pairs[i]).0 == k,
    decreases pairs.len(),
{
    if pairs.len() > 0 && k != pairs.last().0 {
        lemma_inserted_dom(m, pairs.drop_last(), k);
        if exists|i: int| 0 <= i < pairs.drop_last().len() && (#[trigger] pairs.drop_last()[i]).0 == k {
            let i = choose|i: int| 0 <= i < pairs.drop_last().len() && (#[trigger] pairs.drop_last()[i]).0 == k;
            assert(pairs[i].0 == k);
        }
    } else if pairs.len() > 0 {
        assert(pairs[pairs.len() - 1].0 == k);
    }
}

proof fn lemma_removed_dom<K, V>(m: Map<Seq<K>, V>, keys: Seq<Seq<K>>, k: Seq<K>)
    ensures
        removed_all(m, keys).contains_key(k) <==> m.contains_key(k) && !keys.contains(k),
    decreases keys.len(),
{
    if keys.len() > 0 {
        lemma_removed_dom(m, keys.drop_last(), k);
        assert(keys.contains(k) <==> keys.drop_last().contains(k) || keys.last() == k) by {
            if keys.contains(k) {
                let i = choose|i: int| 0 <= i < keys.len() && keys[i] == k;
                if i < keys.len() - 1 {
                    assert(keys.drop_last()[i] == k);
                }
            }
            if keys.drop_last().contains(k) {
                let i = choose|i: int| 0 <= i < keys.drop_last().len() && keys.drop_last()[i] == k;
                assert(keys[i] == k);
            }
        }
    }
}

/// The keys of a sequence of entries.
pub open spec fn keys_of<K, V>(out: Seq<(Vec<K>, &V)>) -> Seq<Seq<K>> {
    out.map_values(|e: (Vec<K>, &V)| e.0@)
}

/// The length of the longest prefix of `q`, no longer than `j`, that is a key of `m`.
pub open spec fn deepest_len<K, V>(m: Map<Seq<K>, V>, q: Seq<K>, j: int) -> Option<int>
    decreases j,
{
    if j < 0 {
        None
    } else if m.contains_key(q.take(j)) {
        Some(j)
    } else if j == 0 {
        None
    } else {
        deepest_len(m, q, j - 1)
    }
}

/// The value stored under the longest key of `m` that is a prefix of `q`.
pub open spec fn longest_prefix<K, V>(m: Map<Seq<K>, V>, q: Seq<K>) -> Option<V> {
    match deepest_len(m, q, q.len() as int) {
        Some(j) => Some(m[q.take(j)]),
        None => None,
    }
}

/// The value an optional reference points at.
pub open spec fn deref_opt<V>(o: Option<&V>) -> Option<V> {
    match o {
        Some(v) => Some(*v),
        None => None,
    }
}

/// The value stored under `k` in `m`, if any.
pub open spec fn lookup<K, V>(m: Map<Seq<K>, V>, k: Seq<K>) -> Option<V> {
    if m.contains_key(k) {
        Some(m[k])
    } else {
        None
    }
}

proof fn lemma_deepest_skip<K, V>(m: Map<Seq<K>, V>, q: Seq<K>, lo: int, hi: int)
    requires
        -1 <= lo <= hi,
        forall|t: int| lo < t <= hi ==> !m.contains_key(#[trigger] q.take(t)),
    ensures
        deepest_len(m, q, hi) == deepest_len(m, q, lo),
    decreases hi - lo,
{
    if hi > lo {
        assert(!m.contains_key(q.take(hi)));
        lemma_deepest_skip(m, q, lo, hi - 1);
    }
}

/// Counts how many pieces of `prefix` agree with `key` from position `at` on.
fn match_len<K: Piece>(prefix: &Vec<K>, key: &[K], at: usize) -> (j: usize)
    requires
        at <= key@.len(),
    ensures
        j <= prefix@.len(),
        at + j <= key@.len(),
        forall|t: int| 0 <= t < j ==> prefix@[t] == #[trigger] key@[at + t],
        j == prefix@.len() || at + j == key@.len() || prefix@[j as int] != key@[at + j],
{
    let n = key.len();
    let mut j: usize = 0;
    while j < prefix.len() && at + j < n && prefix[j].same(&key[at + j])
        invariant
            n == key@.len(),
            j <= prefix@.len(),
            at + j <= key@.len(),
            forall|t: int| 0 <= t < j ==> prefix@[t] == #[trigger] key@[at + t],
        decreases prefix@.len() - j,
    {
        j += 1;
    }
    j
}

/// Copies `src[from..to]` into a new vector.
fn copy_range<K: Piece>(src: &[K], from: usize, to: usize) -> (r: Vec<K>)
    requires
        from <= to <= src@.len(),
    ensures
        r@ == src@.subrange(from as int, to as int),
{
    let mut r: Vec<K> = Vec::new();
    let mut i = from;
    while i < to
        invariant
            from <= i <= to <= src@.len(),
            r@ == src@.subrange(from as int, i as int),
        decreases to - i,
    {
        r.push(src[i]);
        i += 1;
        proof {
            assert(r@ =~= src@.subrange(from as int, i as int));
        }
    }
    r
}

/// The pieces of `head`, then `p`, then the pieces of `rest`.
fn join<K: Piece>(head: Vec<K>, p: K, rest: &Vec<K>) -> (r: Vec<K>)
    ensures
        r@ == head@.push(p) + rest@,
{
    let mut r = head;
    r.push(p);
    let ghost start = r@;
    let mut i: usize = 0;
    while i < rest.len()
        invariant
            i <= rest@.len(),
            r@ == start + rest@.take(i as int),
        decreases rest@.len() - i,
    {
        r.push(rest[i]);
        i += 1;
        proof {
            assert(r@ =~= start + rest@.take(i as int));
        }
    }
    proof {
        assert(rest@.take(rest@.len() as int) =~= rest@);
    }
    r
}

/// The pieces of `a` followed by those of `b`.
fn concat<K: Piece>(a: &Vec<K>, b: &Vec<K>) -> (r: Vec<K>)
    ensures
        r@ == a@ + b@,
{
    let mut r = copy_range(a.as_slice(), 0, a.len());
    let mut i: usize = 0;
    proof {
        assert(a@.subrange(0, a@.len() as int) =~= a@);
    }
    while i < b.len()
        invariant
            i <= b@.len(),
            r@ == a@ + b@.take(i as int),
        decreases b@.len() - i,
    {
        r.push(b[i]);
        i += 1;
        proof {
            assert(r@ =~= a@ + b@.take(i as int));
        }
    }
    proof {
        assert(b@.take(b@.len() as int) =~= b@);
    }
    r
}

/// Copies `key[from..]` into a new vector.
fn tail<K: Piece>(key: &[K], from: usize) -> (r: Vec<K>)
    requires
        from <= key@.len(),
    ensures
        r@ == key@.skip(from as int),
{
    let mut r: Vec<K> = Vec::new();
    let mut i = from;
    while i < key.len()
        invariant
            from <= i <= key@.len(),
            r@ == key@.subrange(from as int, i as int),
        decreases key@.len() - i,
    {
        r.push(key[i]);
        i += 1;
        proof {
            assert(r@ =~= key@.subrange(from as int, i as int));
        }
    }
    proof {
        assert(r@ =~= key@.skip(from as int));
    }
    r
}

/// A compressed radix trie storing values under sequences of pieces. Nodes,
/// branches and leaf values live in three arenas and refer to each other by index.
#[verifier::reject_recursive_types(K)]
pub struct Trie<K, V, B = BTreeBranch<K>> {
    root: usize,
    nodes: Arena<Node<K, V, B>>,
    branches: Arena<B>,
    leaves: Arena<Leaf<V>>,
    /// The pieces on the path from the root to the start of each node's prefix.
    pos: Ghost<Map<usize, Seq<K>>>,
    /// The node holding the leaf of each stored key.
    key_node: Ghost<Map<Seq<K>, usize>>,
    /// The node holding each leaf.
    leaf_owner: Ghost<Map<usize, usize>>,
    /// The node holding each branch.
    branch_owner: Ghost<Map<usize, usize>>,
    /// A bound on the length of every node's full key.
    depth: Ghost<nat>,
}

impl<K: Piece, V, B: Branch<K>> View for Trie<K, V, B> {
    type V = Map<Seq<K>, V>;

    closed spec fn view(&self) -> Map<Seq<K>, V> {
        Map::new(
            |k: Seq<K>| self.key_node@.contains_key(k),
            |k: Seq<K>| self.leaves@[self.node(self.key_node@[k]).leaf_of().unwrap()].spec_value(),
        )
    }
}

impl<K: Piece, V, B: Branch<K>> Default for Trie<K, V, B> {
    fn default() -> (r: Self)
        ensures
            r.wf(),
            r@ == Map::<Seq<K>, V>::empty(),
            r.is_pristine(),
    {
        Trie::new()
    }
}

impl<K: Piece, V, B: Branch<K>> Trie<K, V, B> {
    spec fn live(&self, n: usize) -> bool {
        self.nodes@.contains_key(n)
    }

    spec fn node(&self, n: usize) -> Node<K, V, B> {
        self.nodes@[n]
    }

    spec fn pre(&self, n: usize) -> Seq<K> {
        self.nodes@[n].spec_prefix()
    }

    /// The key at the end of node `n`'s prefix.
    spec fn full(&self, n: usize) -> Seq<K> {
        self.pos@[n] + self.pre(n)
    }

    spec fn bview(&self, n: usize) -> Map<K, usize> {
        self.branches@[self.node(n).branch_of().unwrap()].children()
    }

    /// The value in node `n`'s leaf.
    spec fn leaf_value(&self, n: usize) -> V {
        self.leaves@[self.node(n).leaf_of().unwrap()].spec_value()
    }

    spec fn has_child(&self, n: usize, p: K) -> bool {
        &&& self.live(n)
        &&& self.node(n).branch_of() is Some
        &&& self.bview(n).contains_key(p)
    }

    spec fn child_ok(&self, n: usize, p: K) -> bool {
        let c = self.bview(n)[p];
        &&& self.live(c)
        &&& c != self.root
        &&& self.node(c).spec_previous() == n
        &&& self.pos@[c] == self.full(n).push(p)
    }

    spec fn parent_ok(&self, c: usize) -> bool {
        let par = self.node(c).spec_previous();
        let p = self.pos@[c].last();
        &&& self.live(par)
        &&& self.pos@[c].len() >= 1
        &&& self.pos@[c] == self.full(par).push(p)
        &&& self.has_child(par, p)
        &&& self.bview(par)[p] == c
    }

    spec fn node_ok(&self, n: usize) -> bool {
        let d = self.node(n);
        &&& self.full(n).len() <= self.depth@
        &&& d.spec_is_empty() ==> n == self.root && self.pre(n) == Seq::<K>::empty()
        &&& n != self.root ==> self.parent_ok(n)
        &&& d.branch_of() is Some ==> {
            let b = d.branch_of().unwrap();
            &&& self.branches@.contains_key(b)
            &&& self.branches@[b].wf()
            &&& self.branches@[b].size() >= 1
            &&& self.branch_owner@.contains_key(b)
            &&& self.branch_owner@[b] == n
        }
        &&& d.leaf_of() is Some ==> {
            let l = d.leaf_of().unwrap();
            &&& self.leaves@.contains_key(l)
            &&& self.leaf_owner@.contains_key(l)
            &&& self.leaf_owner@[l] == n
            &&& self.key_node@.contains_key(self.full(n))
            &&& self.key_node@[self.full(n)] == n
        }
    }

    /// A node with a branch and no leaf has at least two children: single
    /// children are always merged into their parent's edge.
    spec fn compressed_at(&self, n: usize) -> bool {
        self.node(n).leaf_of() is None && self.node(n).branch_of() is Some ==> self.bview_size(n) >= 2
    }

    spec fn bview_size(&self, n: usize) -> nat {
        self.branches@[self.node(n).branch_of().unwrap()].size()
    }

    spec fn compressed_except(&self, x: usize) -> bool {
        forall|n: usize| self.nodes@.contains_key(n) && n != x ==> #[trigger] self.compressed_at(n)
    }

    /// The structural invariant: the arenas hold a path-compressed tree
    /// rooted at `root` whose edges, leaves and branches agree with the ghost
    /// bookkeeping.
    pub closed spec fn wf(&self) -> bool {
        &&& self.shape_ok()
        &&& forall|n: usize| self.nodes@.contains_key(n) ==> #[trigger] self.compressed_at(n)
    }

    /// The invariant without path compression.
    spec fn shape_ok(&self) -> bool {
        &&& self.nodes.wf()
        &&& self.branches.wf()
        &&& self.leaves.wf()
        &&& self.live(self.root)
        &&& self.pos@[self.root] == Seq::<K>::empty()
        &&& forall|n: usize| self.nodes@.contains_key(n) ==> #[trigger] self.node_ok(n)
        &&& forall|n: usize, p: K| #[trigger] self.has_child(n, p) ==> self.child_ok(n, p)
        &&& forall|l: usize| #[trigger]
            self.leaves@.contains_key(l) ==> {
                &&& self.leaf_owner@.contains_key(l)
                &&& self.live(self.leaf_owner@[l])
                &&& self.node(self.leaf_owner@[l]).leaf_of() == Some(l)
            }
        &&& forall|b: usize| #[trigger]
            self.branches@.contains_key(b) ==> {
                &&& self.branch_owner@.contains_key(b)
                &&& self.live(self.branch_owner@[b])
                &&& self.node(self.branch_owner@[b]).branch_of() == Some(b)
            }
        &&& forall|k: Seq<K>| #[trigger]
            self.key_node@.contains_key(k) ==> {
                &&& self.live(self.key_node@[k])
                &&& self.node(self.key_node@[k]).leaf_of() is Some
                &&& self.full(self.key_node@[k]) == k
            }
    }

    /// Node `n` lies on the path of `k` at position `i`: its edge spans `i`
    /// and agrees with `k` up to there.
    spec fn covers(&self, n: usize, k: Seq<K>, i: int) -> bool {
        &&& self.live(n)
        &&& self.pos@[n].len() <= i <= self.full(n).len()
        &&& i <= k.len()
        &&& self.full(n).take(i) == k.take(i)
    }

    /// The walk along `k` cannot go on from node `n` at position `i`.
    spec fn stuck(&self, n: usize, k: Seq<K>, i: int) -> bool {
        ||| i < self.full(n).len() && (i == k.len() || self.full(n)[i] != k[i])
        ||| i == self.full(n).len() && i < k.len() && !self.has_child(n, k[i])
    }

    proof fn lemma_node(&self, n: usize)
        requires
            self.shape_ok(),
            self.live(n),
        ensures
            self.node_ok(n),
    {
    }

    proof fn lemma_child(&self, n: usize, p: K)
        requires
            self.shape_ok(),
            self.has_child(n, p),
        ensures
            self.child_ok(n, p),
    {
    }

    proof fn lemma_key(&self, k: Seq<K>)
        requires
            self.shape_ok(),
            self.key_node@.contains_key(k),
        ensures
            self.live(self.key_node@[k]),
            self.node_ok(self.key_node@[k]),
            self.node(self.key_node@[k]).leaf_of() is Some,
            self.full(self.key_node@[k]) == k,
            self.leaves@.contains_key(self.node(self.key_node@[k]).leaf_of().unwrap()),
            self.leaf_owner@[self.node(self.key_node@[k]).leaf_of().unwrap()] == self.key_node@[k],
    {
        self.lemma_node(self.key_node@[k]);
    }

    proof fn lemma_parent(&self, c: usize)
        requires
            self.shape_ok(),
            self.live(c),
            c != self.root,
        ensures
            self.parent_ok(c),
            self.child_ok(self.node(c).spec_previous(), self.pos@[c].last()),
            self.pos@[c].len() == self.full(self.node(c).spec_previous()).len() + 1,
    {
        assert(self.node_ok(c));
        let par = self.node(c).spec_previous();
        assert(self.has_child(par, self.pos@[c].last()));
    }

    /// Every position of a node's full key lies on some node's edge.
    proof fn lemma_cover(&self, x: usize, i: int) -> (a: usize)
        requires
            self.shape_ok(),
            self.live(x),
            0 <= i <= self.full(x).len(),
        ensures
            self.covers(a, self.full(x), i),
            a == x || is_prefix(self.full(a), self.pos@[x]),
        decreases self.pos@[x].len(),
    {
        if self.pos@[x].len() <= i {
            x
        } else {
            self.lemma_parent(x);
            let par = self.node(x).spec_previous();
            assert(self.full(par).len() < self.pos@[x].len());
            assert(self.pos@[par].len() <= self.full(par).len());
            let a = self.lemma_cover(par, i);
            assert(self.full(par) == self.full(x).take(self.full(par).len() as int)) by {
                assert(self.full(par) =~= self.pos@[x].take(self.full(par).len() as int));
                assert(self.full(x).take(self.full(par).len() as int) =~= self.pos@[x].take(
                    self.full(par).len() as int,
                ));
            }
            assert(self.full(par).take(i) =~= self.full(x).take(i));
            assert(is_prefix(self.full(par), self.pos@[x])) by {
                assert(self.pos@[x].take(self.full(par).len() as int) =~= self.full(par));
            }
            if a != par {
                let la = self.full(a).len() as int;
                assert(self.pos@[x].take(la) =~= self.pos@[par].take(la));
                assert(self.pos@[par] =~= self.full(par).take(self.pos@[par].len() as int));
                assert(self.pos@[x].take(la) =~= self.full(par).take(self.pos@[par].len() as int).take(la));
            }
            a
        }
    }

    /// At most one node covers a position of a key.
    proof fn lemma_unique_cover(&self, x: usize, y: usize, k: Seq<K>, i: int)
        requires
            self.shape_ok(),
            self.covers(x, k, i),
            self.covers(y, k, i),
        ensures
            x == y,
        decreases i,
    {
        if x != y {
            if self.pos@[x].len() == 0 && self.pos@[y].len() == 0 {
                if x != self.root {
                    self.lemma_parent(x);
                }
                if y != self.root {
                    self.lemma_parent(y);
                }
            } else if self.pos@[x].len() >= self.pos@[y].len() {
                self.lemma_step(x, y, k, i);
            } else {
                self.lemma_step(y, x, k, i);
            }
        }
    }

    proof fn lemma_step(&self, x: usize, y: usize, k: Seq<K>, i: int)
        requires
            self.shape_ok(),
            self.covers(x, k, i),
            self.covers(y, k, i),
            self.pos@[x].len() >= self.pos@[y].len(),
            self.pos@[x].len() >= 1,
        ensures
            x == y,
        decreases i, 0int,
    {
        if x == self.root {
            assert(self.pos@[x].len() == 0);
        }
        self.lemma_parent(x);
        let px = self.node(x).spec_previous();
        let j = self.pos@[x].len() - 1;
        assert(self.pos@[x] =~= self.full(x).take(j + 1));
        assert(self.full(px) =~= self.pos@[x].take(j));
        assert(self.full(px).take(j) =~= k.take(j)) by {
            assert(k.take(j) =~= k.take(i).take(j));
            assert(self.full(x).take(j) =~= self.full(x).take(i).take(j));
        }
        assert(self.covers(px, k, j));
        if self.pos@[y].len() <= j {
            assert(self.full(y).take(j) =~= k.take(j)) by {
                assert(k.take(j) =~= k.take(i).take(j));
                assert(self.full(y).take(j) =~= self.full(y).take(i).take(j));
            }
            assert(self.covers(y, k, j));
            self.lemma_unique_cover(y, px, k, j);
        } else {
            if y == self.root {
                assert(self.pos@[y].len() == 0);
            }
            self.lemma_parent(y);
            let py = self.node(y).spec_previous();
            assert(self.pos@[y] =~= self.full(y).take(j + 1));
            assert(self.full(py) =~= self.pos@[y].take(j));
            assert(self.full(py).take(j) =~= k.take(j)) by {
                assert(k.take(j) =~= k.take(i).take(j));
                assert(self.full(y).take(j) =~= self.full(y).take(i).take(j));
            }
            assert(self.covers(py, k, j));
            self.lemma_unique_cover(px, py, k, j);
            assert(self.pos@[x].last() == k[j]) by {
                assert(self.full(x).take(i)[j] == k.take(i)[j]);
            }
            assert(self.pos@[y].last() == k[j]) by {
                assert(self.full(y).take(i)[j] == k.take(i)[j]);
            }
        }
    }

    /// When the walk along `k` is stuck at position `i`, no node whose full
    /// key is a prefix of `k` ends beyond `i`.
    proof fn lemma_stuck(&self, n: usize, k: Seq<K>, i: int)
        requires
            self.shape_ok(),
            self.covers(n, k, i),
            self.stuck(n, k, i),
        ensures
            forall|x: usize|
                #![trigger self.full(x)]
                self.live(x) && self.full(x).len() <= k.len() && self.full(x) == k.take(
                    self.full(x).len() as int,
                ) ==> self.full(x).len() <= i,
    {
        assert forall|x: usize|
            #![trigger self.full(x)]
            self.live(x) && self.full(x).len() <= k.len() && self.full(x) == k.take(
                self.full(x).len() as int,
            ) implies self.full(x).len() <= i by {
            if self.full(x).len() > i {
                let m = self.full(x).len() as int;
                let a = self.lemma_cover(x, i + 1);
                assert(self.full(x).take(i + 1) =~= k.take(i + 1));
                assert(self.covers(a, k, i + 1));
                if self.pos@[a].len() <= i {
                    assert(self.full(a).take(i) =~= k.take(i)) by {
                        assert(self.full(a).take(i) =~= self.full(a).take(i + 1).take(i));
                        assert(k.take(i) =~= k.take(i + 1).take(i));
                    }
                    assert(self.covers(a, k, i));
                    self.lemma_unique_cover(a, n, k, i);
                    assert(self.full(a).take(i + 1)[i] == k.take(i + 1)[i]);
                } else {
                    if a == self.root {
                        assert(self.pos@[a].len() == 0);
                    }
                    self.lemma_parent(a);
                    let pa = self.node(a).spec_previous();
                    assert(self.pos@[a] =~= self.full(a).take(i + 1));
                    assert(self.full(pa) =~= self.pos@[a].take(i));
                    assert(self.full(pa).take(i) =~= k.take(i)) by {
                        assert(k.take(i) =~= k.take(i + 1).take(i));
                        assert(self.full(a).take(i) =~= self.full(a).take(i + 1).take(i));
                    }
                    assert(self.covers(pa, k, i));
                    self.lemma_unique_cover(pa, n, k, i);
                    assert(self.pos@[a].last() == k[i]) by {
                        assert(self.full(a).take(i + 1)[i] == k.take(i + 1)[i]);
                    }
                }
            }
        }
    }

    /// Node `n`'s edge holds no stored key strictly inside it.
    proof fn lemma_interior(&self, n: usize, k: Seq<K>, t: int)
        requires
            self.shape_ok(),
            self.covers(n, k, t),
            t < self.full(n).len(),
        ensures
            !self.key_node@.contains_key(k.take(t)),
    {
        if self.key_node@.contains_key(k.take(t)) {
            let x = self.key_node@[k.take(t)];
            assert(self.full(x) == k.take(t));
            assert(self.full(x).take(t) =~= k.take(t));
            assert(self.pos@[x].len() <= self.full(x).len());
            assert(self.covers(x, k, t));
            self.lemma_unique_cover(x, n, k, t);
        }
    }

    /// Where the walk along `k` ends at node `n`, stuck or on a node without
    /// a leaf, `k` is not stored.
    proof fn lemma_not_stored(&self, n: usize, k: Seq<K>, i: int)
        requires
            self.shape_ok(),
            self.covers(n, k, i),
            self.stuck(n, k, i) || (i == self.full(n).len() && i == k.len() && self.node(n).leaf_of() is None),
        ensures
            !self.key_node@.contains_key(k),
    {
        if self.key_node@.contains_key(k) {
            let x = self.key_node@[k];
            assert(self.full(x) == k);
            assert(k.take(k.len() as int) =~= k);
            if i < k.len() {
                self.lemma_stuck(n, k, i);
                assert(self.full(x).len() <= i);
            } else {
                assert(self.full(x).take(i) =~= k.take(i));
                assert(self.covers(x, k, i));
                self.lemma_unique_cover(x, n, k, i);
            }
        }
    }

    /// The leaf of a node sits under the node's full key.
    proof fn lemma_stored(&self, n: usize)
        requires
            self.shape_ok(),
            self.live(n),
            self.node(n).leaf_of() is Some,
        ensures
            self@.contains_key(self.full(n)),
            self@[self.full(n)] == self.leaves@[self.node(n).leaf_of().unwrap()].spec_value(),
    {
        assert(self.node_ok(n));
    }

    /// A node other than the root hangs below a root that has a branch.
    proof fn lemma_root_branch(&self, x: usize)
        requires
            self.shape_ok(),
            self.live(x),
            x != self.root,
        ensures
            self.node(self.root).branch_of() is Some,
        decreases self.pos@[x].len(),
    {
        self.lemma_parent(x);
        let par = self.node(x).spec_previous();
        if par != self.root {
            self.lemma_root_branch(par);
        }
    }

    /// Below every non-empty node some node holds a leaf.
    proof fn lemma_leaf_below(&self, n: usize) -> (x: usize)
        requires
            self.shape_ok(),
            self.live(n),
            !self.node(n).spec_is_empty(),
        ensures
            self.live(x),
            self.node(x).leaf_of() is Some,
            self.full(n).len() <= self.full(x).len(),
            self.full(x).take(self.full(n).len() as int) == self.full(n),
            x != n ==> self.full(n).len() < self.full(x).len(),
        decreases self.depth@ - self.full(n).len(),
    {
        self.lemma_node(n);
        if self.node(n).leaf_of() is Some {
            assert(self.full(n).take(self.full(n).len() as int) =~= self.full(n));
            n
        } else {
            let br = self.branches@[self.node(n).branch_of().unwrap()];
            br.lemma_size();
            let p = br.piece_at(0);
            assert(self.has_child(n, p));
            let c = self.bview(n)[p];
            assert(self.child_ok(n, p));
            self.lemma_node(c);
            let x = self.lemma_leaf_below(c);
            assert(self.full(x).take(self.full(n).len() as int) =~= self.full(x).take(
                self.full(c).len() as int,
            ).take(self.full(n).len() as int));
            assert(self.full(c).take(self.full(n).len() as int) =~= self.full(n));
            x
        }
    }

    /// `k` is stored at or below node `n`.
    spec fn in_subtree(&self, n: usize, k: Seq<K>) -> bool {
        self.key_node@.contains_key(k) && is_prefix(self.full(n), k)
    }

    /// Every stored key lies below the root.
    proof fn lemma_under_root(&self, k: Seq<K>)
        requires
            self.shape_ok(),
            self.key_node@.contains_key(k),
        ensures
            self.in_subtree(self.root, k),
    {
        self.lemma_key(k);
        let x = self.key_node@[k];
        let a = self.lemma_cover(x, 0);
        if a != self.root {
            self.lemma_parent(a);
        }
        if x != self.root {
            let lr = self.full(self.root).len() as int;
            assert(self.full(x).take(lr) =~= self.pos@[x].take(lr));
        } else {
            assert(k.take(k.len() as int) =~= k);
        }
    }

    /// A key stored below a child is stored below its parent, and its next
    /// piece after the parent's full key is the child's piece.
    proof fn lemma_child_subtree(&self, n: usize, p: K, k: Seq<K>)
        requires
            self.shape_ok(),
            self.has_child(n, p),
            self.in_subtree(self.bview(n)[p], k),
        ensures
            self.in_subtree(n, k),
            k.len() > self.full(n).len(),
            k.take(self.full(n).len() as int) == self.full(n),
            k[self.full(n).len() as int] == p,
    {
        self.lemma_child(n, p);
        let c = self.bview(n)[p];
        let d = self.full(n).len() as int;
        assert(self.full(c).take(d + 1) =~= self.pos@[c]);
        assert(k.take(d) =~= k.take(self.full(c).len() as int).take(d));
        assert(self.full(c).take(d + 1).take(d) =~= self.full(n));
        assert(self.full(c).take(d) =~= self.full(c).take(d + 1).take(d));
        assert(k.take(d) =~= self.full(n));
        assert(k.take(self.full(c).len() as int)[d] == k[d]);
    }

    /// A key stored below `n` is `n`'s own key, held by `n`'s leaf, or lies
    /// below the child for its next piece.
    proof fn lemma_subtree_split(&self, n: usize, k: Seq<K>)
        requires
            self.shape_ok(),
            self.live(n),
            self.in_subtree(n, k),
        ensures
            k == self.full(n) ==> self.node(n).leaf_of() is Some && self.key_node@[k] == n,
            k != self.full(n) ==> {
                &&& k.len() > self.full(n).len()
                &&& self.has_child(n, k[self.full(n).len() as int])
                &&& self.in_subtree(self.bview(n)[k[self.full(n).len() as int]], k)
            },
    {
        self.lemma_key(k);
        self.lemma_node(n);
        let x = self.key_node@[k];
        let d = self.full(n).len() as int;
        assert(self.pos@[n].len() <= d);
        assert(self.full(n).take(d) =~= self.full(n));
        if k == self.full(n) {
            assert(k.take(d) =~= k);
            assert(self.covers(n, k, d));
            assert(self.pos@[x].len() <= self.full(x).len());
            assert(self.covers(x, k, d));
            self.lemma_unique_cover(x, n, k, d);
        } else {
            assert(k.len() > d) by {
                if k.len() == d {
                    assert(k.take(d) =~= k);
                }
            }
            assert(self.covers(n, k, d));
            let p = k[d];
            if !self.has_child(n, p) {
                self.lemma_stuck(n, k, d);
                assert(k.take(k.len() as int) =~= k);
                assert(self.full(x) == k.take(self.full(x).len() as int));
            }
            self.lemma_child(n, p);
            let c = self.bview(n)[p];
            self.lemma_node(c);
            assert(self.pos@[c] =~= k.take(d + 1)) by {
                assert(k.take(d + 1) =~= k.take(d).push(p));
            }
            assert(self.full(c).take(d + 1) =~= self.pos@[c]);
            assert(self.covers(c, k, d + 1));
            let a = self.lemma_cover(x, d + 1);
            self.lemma_unique_cover(a, c, k, d + 1);
            if c != x {
                let lc = self.full(c).len() as int;
                assert(self.full(x).take(lc) =~= self.pos@[x].take(lc));
            } else {
                assert(k.take(k.len() as int) =~= k);
            }
        }
    }

    /// Keys below two children of one node are ordered as their pieces.
    proof fn lemma_sibling_lt(&self, n: usize, p: K, q: K, a: Seq<K>, b: Seq<K>)
        requires
            self.shape_ok(),
            self.has_child(n, p),
            self.has_child(n, q),
            p.rank() < q.rank(),
            self.in_subtree(self.bview(n)[p], a),
            self.in_subtree(self.bview(n)[q], b),
        ensures
            key_lt(a, b),
    {
        self.lemma_child_subtree(n, p, a);
        self.lemma_child_subtree(n, q, b);
        let d = self.full(n).len() as int;
        assert(a[d] == p && b[d] == q);
        assert(a.take(d) == b.take(d));
    }

    /// The state of the depth-first walk: `ws` is its stack, `ks` the keys
    /// output so far and `seen` the nodes already taken off the stack.
    spec fn walk_inv(&self, ws: Seq<(usize, Seq<K>)>, ks: Seq<Seq<K>>, seen: Set<usize>) -> bool {
        &&& seen.subset_of(self.nodes@.dom())
        &&& forall|x: usize| #[trigger] seen.contains(x) && x != self.root ==> seen.contains(self.node(x).spec_previous())
        &&& forall|t: int|
            0 <= t < ws.len() ==> {
                let x = #[trigger] ws[t].0;
                &&& self.live(x)
                &&& ws[t].1 == self.pos@[x]
                &&& !seen.contains(x)
                &&& x != self.root ==> seen.contains(self.node(x).spec_previous())
            }
        &&& forall|t1: int, t2: int| 0 <= t1 < t2 < ws.len() ==> (#[trigger] ws[t1]).0 != (#[trigger] ws[t2]).0
        &&& forall|i: int, j: int| 0 <= i < j < ks.len() ==> #[trigger] ks[i] != #[trigger] ks[j]
        &&& forall|i: int, t: int, k: Seq<K>|
            #![trigger self.in_subtree(ws[t].0, k), ks[i]]
            0 <= i < ks.len() && 0 <= t < ws.len() && self.in_subtree(ws[t].0, k) ==> ks[i] != k
        &&& forall|t1: int, t2: int, k: Seq<K>|
            #![trigger self.in_subtree(ws[t1].0, k), self.in_subtree(ws[t2].0, k)]
            0 <= t1 < t2 < ws.len() && self.in_subtree(ws[t1].0, k) ==> !self.in_subtree(ws[t2].0, k)
        &&& B::ordered() ==> {
            &&& forall|i: int, j: int| 0 <= i < j < ks.len() ==> key_lt(#[trigger] ks[i], #[trigger] ks[j])
            &&& forall|i: int, t: int, k: Seq<K>|
                #![trigger self.in_subtree(ws[t].0, k), ks[i]]
                0 <= i < ks.len() && 0 <= t < ws.len() && self.in_subtree(ws[t].0, k) ==> key_lt(ks[i], k)
            &&& forall|t1: int, t2: int, a: Seq<K>, b: Seq<K>|
                #![trigger self.in_subtree(ws[t2].0, a), self.in_subtree(ws[t1].0, b)]
                0 <= t1 < t2 < ws.len() && self.in_subtree(ws[t2].0, a) && self.in_subtree(ws[t1].0, b) ==> key_lt(a, b)
        }
        &&& forall|k: Seq<K>|
            #[trigger] self.key_node@.contains_key(k) ==> (exists|i: int| 0 <= i < ks.len() && ks[i] == k) || (exists|t: int|
                0 <= t < ws.len() && self.in_subtree(ws[t].0, k))
    }

    /// One step of the walk: the top node `n` is taken off the stack, its
    /// key is output when it has a leaf, and its children are pushed in
    /// descending order of their pieces.
    #[verifier::rlimit(100)]
    proof fn lemma_walk_step(
        &self,
        ws: Seq<(usize, Seq<K>)>,
        ws2: Seq<(usize, Seq<K>)>,
        ks: Seq<Seq<K>>,
        ks2: Seq<Seq<K>>,
        seen: Set<usize>,
        n: usize,
    )
        requires
            self.wf(),
            self.walk_inv(ws, ks, seen),
            ws.len() > 0,
            ws.last().0 == n,
            ks2 == (if self.node(n).leaf_of() is Some { ks.push(self.full(n)) } else { ks }),
            forall|u: int| 0 <= u < ws.len() - 1 ==> #[trigger] ws2[u] == ws[u],
            self.node(n).branch_of() is None ==> ws2.len() == ws.len() - 1,
            self.node(n).branch_of() is Some ==> {
                let br = self.branches@[self.node(n).branch_of().unwrap()];
                &&& ws2.len() == ws.len() - 1 + br.size()
                &&& forall|m: int|
                    0 <= m < br.size() ==> #[trigger] ws2[ws.len() - 1 + m] == (
                        br.child_at(br.size() - 1 - m),
                        self.full(n).push(br.piece_at(br.size() - 1 - m)),
                    )
            },
        ensures
            self.walk_inv(ws2, ks2, seen.insert(n)),
    {
        let top = ws.len() - 1;
        let f = self.full(n);
        let d = f.len() as int;
        self.lemma_node(n);
        let has_b = self.node(n).branch_of() is Some;
        let br = self.branches@[self.node(n).branch_of().unwrap()];
        let bsz: int = if has_b { br.size() as int } else { 0 };
        if has_b {
            br.lemma_size();
        }
        let seen2 = seen.insert(n);
        assert(!seen.contains(n));
        // the children on the stack
        assert forall|m: int| 0 <= m < bsz implies {
            let j = bsz - 1 - m;
            &&& self.has_child(n, br.piece_at(j))
            &&& self.bview(n)[br.piece_at(j)] == br.child_at(j)
            &&& #[trigger] ws2[top + m].0 == br.child_at(j)
            &&& ws2[top + m].1 == self.pos@[br.child_at(j)]
            &&& self.node(br.child_at(j)).spec_previous() == n
            &&& br.child_at(j) != self.root
            &&& self.live(br.child_at(j))
        } by {
            let j = bsz - 1 - m;
            assert(self.has_child(n, br.piece_at(j)));
            self.lemma_child(n, br.piece_at(j));
        }
        if self.node(n).leaf_of() is Some {
            self.lemma_stored(n);
            assert(self.in_subtree(n, f)) by {
                assert(f.take(d) =~= f);
            }
        }
        // W1
        assert forall|t: int| 0 <= t < ws2.len() implies {
            let x = #[trigger] ws2[t].0;
            &&& self.live(x)
            &&& ws2[t].1 == self.pos@[x]
            &&& !seen2.contains(x)
            &&& x != self.root ==> seen2.contains(self.node(x).spec_previous())
        } by {
            if t < top {
                assert(ws[t].0 != ws[top].0);
            } else {
                let m = t - top;
                let c = ws2[t].0;
                assert(ws2[top + m].0 == c);
                if seen.contains(c) {
                    assert(seen.contains(self.node(c).spec_previous()));
                }
                self.lemma_node(c);
                assert(c != n) by {
                    assert(self.pos@[c].len() == d + 1);
                    assert(self.pos@[n].len() <= d);
                }
            }
        }
        // W2
        assert forall|t1: int, t2: int| 0 <= t1 < t2 < ws2.len() implies (#[trigger] ws2[t1]).0 != (#[trigger] ws2[t2]).0 by {
            if t2 < top {
                assert(ws[t1].0 != ws[t2].0);
            } else if t1 < top {
                let m = t2 - top;
                assert(ws2[top + m].0 == ws2[t2].0);
                let x = ws[t1].0;
                if x == ws2[t2].0 {
                    assert(seen.contains(self.node(x).spec_previous()));
                }
            } else {
                let m1 = t1 - top;
                let m2 = t2 - top;
                assert(ws2[top + m1].0 == ws2[t1].0);
                assert(ws2[top + m2].0 == ws2[t2].0);
                let j1 = bsz - 1 - m1;
                let j2 = bsz - 1 - m2;
                assert(br.piece_at(j2) != br.piece_at(j1));
                if ws2[t1].0 == ws2[t2].0 {
                    assert(self.pos@[ws2[t1].0] == f.push(br.piece_at(j1)));
                    assert(self.pos@[ws2[t2].0] == f.push(br.piece_at(j2)));
                    assert(f.push(br.piece_at(j1))[d] == br.piece_at(j1));
                    assert(f.push(br.piece_at(j2))[d] == br.piece_at(j2));
                }
            }
        }
        // W3
        assert forall|x: usize| #[trigger] seen2.contains(x) && x != self.root implies seen2.contains(self.node(x).spec_previous()) by {
            if x == n {
                assert(ws[top].0 == n);
            }
        }
        // D1
        assert forall|i: int, j: int| 0 <= i < j < ks2.len() implies #[trigger] ks2[i] != #[trigger] ks2[j] by {
            if j == ks.len() {
                assert(ks2[j] == f);
                assert(ks2[i] == ks[i]);
                assert(self.in_subtree(ws[top].0, f));
            }
        }
        // D2
        assert forall|i: int, t: int, k: Seq<K>|
            #![trigger self.in_subtree(ws2[t].0, k), ks2[i]]
            0 <= i < ks2.len() && 0 <= t < ws2.len() && self.in_subtree(ws2[t].0, k) implies ks2[i] != k by {
            if t >= top {
                let m = t - top;
                let j = bsz - 1 - m;
                assert(ws2[top + m].0 == ws2[t].0);
                self.lemma_child_subtree(n, br.piece_at(j), k);
                assert(self.in_subtree(ws[top].0, k));
                if i == ks.len() {
                    assert(ks2[i] == f);
                } else {
                    assert(ks2[i] == ks[i]);
                }
            } else {
                assert(ws2[t] == ws[t]);
                if i == ks.len() {
                    assert(ks2[i] == f);
                    assert(self.in_subtree(ws[top].0, f));
                    if f == k {
                        assert(self.in_subtree(ws[t].0, f));
                    }
                } else {
                    assert(ks2[i] == ks[i]);
                }
            }
        }
        // D3
        assert forall|t1: int, t2: int, k: Seq<K>|
            #![trigger self.in_subtree(ws2[t1].0, k), self.in_subtree(ws2[t2].0, k)]
            0 <= t1 < t2 < ws2.len() && self.in_subtree(ws2[t1].0, k) implies !self.in_subtree(ws2[t2].0, k) by {
            if self.in_subtree(ws2[t2].0, k) {
                if t2 < top {
                    assert(ws2[t1] == ws[t1] && ws2[t2] == ws[t2]);
                } else if t1 < top {
                    let m = t2 - top;
                    let j = bsz - 1 - m;
                    assert(ws2[top + m].0 == ws2[t2].0);
                    self.lemma_child_subtree(n, br.piece_at(j), k);
                    assert(ws2[t1] == ws[t1]);
                    assert(self.in_subtree(ws[top].0, k));
                } else {
                    let m1 = t1 - top;
                    let m2 = t2 - top;
                    assert(ws2[top + m1].0 == ws2[t1].0);
                    assert(ws2[top + m2].0 == ws2[t2].0);
                    let j1 = bsz - 1 - m1;
                    let j2 = bsz - 1 - m2;
                    self.lemma_child_subtree(n, br.piece_at(j1), k);
                    self.lemma_child_subtree(n, br.piece_at(j2), k);
                    assert(br.piece_at(j2) != br.piece_at(j1));
                }
            }
        }
        if B::ordered() {
            // O1
            assert forall|i: int, j: int| 0 <= i < j < ks2.len() implies key_lt(#[trigger] ks2[i], #[trigger] ks2[j]) by {
                if j == ks.len() {
                    assert(ks2[j] == f);
                    assert(ks2[i] == ks[i]);
                    assert(self.in_subtree(ws[top].0, f));
                }
            }
            // O2
            assert forall|i: int, t: int, k: Seq<K>|
                #![trigger self.in_subtree(ws2[t].0, k), ks2[i]]
                0 <= i < ks2.len() && 0 <= t < ws2.len() && self.in_subtree(ws2[t].0, k) implies key_lt(ks2[i], k) by {
                let in_child = t >= top;
                if in_child {
                    let m = t - top;
                    let j = bsz - 1 - m;
                    assert(ws2[top + m].0 == ws2[t].0);
                    self.lemma_child_subtree(n, br.piece_at(j), k);
                    assert(self.in_subtree(ws[top].0, k));
                    if i == ks.len() {
                        assert(ks2[i] == f);
                        assert(k.take(d) == f);
                    } else {
                        assert(ks2[i] == ks[i]);
                    }
                } else {
                    assert(ws2[t] == ws[t]);
                    if i == ks.len() {
                        assert(ks2[i] == f);
                        assert(self.in_subtree(ws[top].0, f));
                    } else {
                        assert(ks2[i] == ks[i]);
                    }
                }
            }
            // O3
            assert forall|t1: int, t2: int, a: Seq<K>, b: Seq<K>|
                #![trigger self.in_subtree(ws2[t2].0, a), self.in_subtree(ws2[t1].0, b)]
                0 <= t1 < t2 < ws2.len() && self.in_subtree(ws2[t2].0, a) && self.in_subtree(ws2[t1].0, b) implies key_lt(a, b) by {
                if t2 < top {
                    assert(ws2[t1] == ws[t1] && ws2[t2] == ws[t2]);
                } else if t1 < top {
                    let m = t2 - top;
                    let j = bsz - 1 - m;
                    assert(ws2[top + m].0 == ws2[t2].0);
                    self.lemma_child_subtree(n, br.piece_at(j), a);
                    assert(ws2[t1] == ws[t1]);
                    assert(self.in_subtree(ws[top].0, a));
                } else {
                    let m1 = t1 - top;
                    let m2 = t2 - top;
                    assert(ws2[top + m1].0 == ws2[t1].0);
                    assert(ws2[top + m2].0 == ws2[t2].0);
                    let j1 = bsz - 1 - m1;
                    let j2 = bsz - 1 - m2;
                    self.lemma_sibling_lt(n, br.piece_at(j2), br.piece_at(j1), a, b);
                }
            }
        }
        // C1
        assert forall|k: Seq<K>| #[trigger] self.key_node@.contains_key(k) implies (exists|i: int|
            0 <= i < ks2.len() && ks2[i] == k) || (exists|t: int| 0 <= t < ws2.len() && self.in_subtree(ws2[t].0, k)) by {
            if exists|i: int| 0 <= i < ks.len() && ks[i] == k {
                let i = choose|i: int| 0 <= i < ks.len() && ks[i] == k;
                assert(ks2[i] == k);
            } else {
                let t = choose|t: int| 0 <= t < ws.len() && self.in_subtree(ws[t].0, k);
                if t < top {
                    assert(ws2[t] == ws[t]);
                } else {
                    self.lemma_subtree_split(n, k);
                    if k == f {
                        assert(ks2[ks.len() as int] == k);
                    } else {
                        let p = k[d];
                        let j = choose|j: int| 0 <= j < br.size() && br.piece_at(j) == p;
                        let m = bsz - 1 - j;
                        assert(ws2[top + m].0 == br.child_at(j));
                        assert(self.in_subtree(ws2[top + m].0, k));
                    }
                }
            }
        }
    }

    /// Every stored key with its value, each once; in ascending order of
    /// keys when the branching strategy is ordered. The nodes are visited
    /// depth first from an explicit stack, the children of each node in the
    /// order that its branch lists them.
    #[verifier::rlimit(100)]
    pub fn iter(&self) -> (r: Vec<(Vec<K>, &V)>)
        requires
            self.wf(),
        ensures
            forall|i: int| 0 <= i < r@.len() ==> #[trigger] self@.contains_key(r@[i].0@) && *r@[i].1 == self@[r@[i].0@],
            forall|k: Seq<K>| #[trigger] self@.contains_key(k) ==> exists|i: int| 0 <= i < r@.len() && r@[i].0@ == k,
            forall|i: int, j: int| 0 <= i < j < r@.len() ==> #[trigger] r@[i].0@ != #[trigger] r@[j].0@,
            B::ordered() ==> forall|i: int, j: int| 0 <= i < j < r@.len() ==> key_lt(#[trigger] r@[i].0@, #[trigger] r@[j].0@),
    {
        let mut walk: Walk<K> = Walk::start(self.root);
        let mut out: Vec<(Vec<K>, &V)> = Vec::new();
        let ghost mut seen: Set<usize> = Set::empty();
        proof {
            self.nodes.lemma_finite();
            self.lemma_node(self.root);
            assert forall|k: Seq<K>| #[trigger] self.key_node@.contains_key(k) implies exists|t: int|
                0 <= t < walk.spec_stack().len() && self.in_subtree(walk.spec_stack()[t].0, k) by {
                self.lemma_under_root(k);
                assert(self.in_subtree(walk.spec_stack()[0].0, k));
            }
            assert(keys_of(out@) =~= Seq::<Seq<K>>::empty());
        }
        loop
            invariant
                self.wf(),
                self.nodes@.dom().finite(),
                self.walk_inv(walk.spec_stack(), keys_of(out@), seen),
                forall|i: int| 0 <= i < out@.len() ==> #[trigger] self@.contains_key(out@[i].0@) && *out@[i].1 == self@[out@[i].0@],
            decreases self.nodes@.dom().len() - seen.len(),
        {
            let ghost ws = walk.spec_stack();
            let ghost old_out = out@;
            let entry = walk.pop();
            let (n, path) = match entry {
                None => {
                    proof {
                        assert forall|k: Seq<K>| #[trigger] self@.contains_key(k) implies exists|i: int|
                            0 <= i < out@.len() && out@[i].0@ == k by {
                            assert(self.key_node@.contains_key(k));
                            let i = choose|i: int| 0 <= i < keys_of(out@).len() && keys_of(out@)[i] == k;
                            assert(out@[i].0@ == k);
                        }
                        assert forall|i: int, j: int| 0 <= i < j < out@.len() implies #[trigger] out@[i].0@
                            != #[trigger] out@[j].0@ by {
                            assert(keys_of(out@)[i] == out@[i].0@);
                            assert(keys_of(out@)[j] == out@[j].0@);
                        }
                        if B::ordered() {
                            assert forall|i: int, j: int| 0 <= i < j < out@.len() implies key_lt(
                                #[trigger] out@[i].0@,
                                #[trigger] out@[j].0@,
                            ) by {
                                assert(keys_of(out@)[i] == out@[i].0@);
                                assert(keys_of(out@)[j] == out@[j].0@);
                            }
                        }
                    }
                    return out;
                },
                Some(e) => e,
            };
            let ghost top = ws.len() - 1;
            let ghost base = walk.spec_stack();
            proof {
                assert(ws[top].0 == n);
                self.lemma_node(n);
                vstd::set_lib::lemma_len_subset(seen, self.nodes@.dom());
                vstd::set_lib::lemma_len_subset(seen.insert(n), self.nodes@.dom());
            }
            let node = self.nodes.get(&Handle::from(n));
            let full = concat(&path, node.prefix());
            let ghost f = full@;
            proof {
                assert(f == self.full(n));
            }
            match node.leaf() {
                Some(l) => {
                    proof {
                        self.lemma_stored(n);
                        assert(self.in_subtree(n, f)) by {
                            assert(f.take(f.len() as int) =~= f);
                        }
                    }
                    out.push((copy_range(full.as_slice(), 0, full.len()), self.leaves.get(&l).get()));
                    proof {
                        assert(full@.subrange(0, full@.len() as int) =~= full@);
                        let last = out@.len() - 1;
                        assert(out@[last].0@ == f);
                        assert(l.spec_index() == self.node(n).leaf_of().unwrap());
                        assert(*out@[last].1 == self.leaves@[l.spec_index()].spec_value());
                        assert(self@.contains_key(f));
                        assert(self@[f] == self.leaves@[l.spec_index()].spec_value());
                        assert forall|i: int| 0 <= i < out@.len() implies #[trigger] self@.contains_key(out@[i].0@)
                            && *out@[i].1 == self@[out@[i].0@] by {
                            if i < old_out.len() {
                                assert(out@[i] == old_out[i]);
                            }
                        }
                    }
                },
                None => {},
            }
            let ghost new_out = out@;
            match node.branch() {
                Some(b) => {
                    let br = self.branches.get(&b);
                    let pieces = br.keys();
                    let children = br.values();
                    let mut t = pieces.len();
                    let ghost bsz = br.size();
                    while t > 0
                        invariant
                            full@ == f,
                            t <= bsz,
                            bsz == pieces@.len(),
                            bsz == children@.len(),
                            forall|i: int| 0 <= i < bsz ==> pieces@[i] == #[trigger] br.piece_at(i),
                            forall|i: int| 0 <= i < bsz ==> children@[i] == #[trigger] br.child_at(i),
                            walk.spec_stack().len() == base.len() + (bsz - t),
                            forall|u: int| 0 <= u < base.len() ==> #[trigger] walk.spec_stack()[u] == base[u],
                            forall|m: int|
                                0 <= m < bsz - t ==> #[trigger] walk.spec_stack()[base.len() + m] == (
                                    br.child_at(bsz - 1 - m),
                                    f.push(br.piece_at(bsz - 1 - m)),
                                ),
                        decreases t,
                    {
                        t -= 1;
                        let mut path = copy_range(full.as_slice(), 0, full.len());
                        path.push(pieces[t]);
                        proof {
                            assert(path@ =~= f.push(br.piece_at(t as int)));
                        }
                        walk.push(children[t], path);
                        proof {
                            assert forall|m: int| 0 <= m < bsz - t implies #[trigger] walk.spec_stack()[base.len() + m] == (
                                br.child_at(bsz - 1 - m),
                                f.push(br.piece_at(bsz - 1 - m)),
                            ) by {
                                if m < bsz - t - 1 {
                                    assert(walk.spec_stack()[base.len() + m] == walk.spec_stack().drop_last()[base.len() + m]);
                                }
                            }
                        }
                    }
                    proof {
                        assert(keys_of(new_out) =~= (if self.node(n).leaf_of() is Some {
                            keys_of(old_out).push(f)
                        } else {
                            keys_of(old_out)
                        }));
                        self.lemma_walk_step(ws, walk.spec_stack(), keys_of(old_out), keys_of(new_out), seen, n);
                    }
                },
                None => {
                    proof {
                        assert(keys_of(new_out) =~= (if self.node(n).leaf_of() is Some {
                            keys_of(old_out).push(f)
                        } else {
                            keys_of(old_out)
                        }));
                        self.lemma_walk_step(ws, walk.spec_stack(), keys_of(old_out), keys_of(new_out), seen, n);
                    }
                },
            }
            proof {
                seen = seen.insert(n);
            }
        }
    }

    /// Takes the trie apart into its keys and values, in the order that
    /// `iter` lists them.
    pub fn into_iter(self) -> (r: Vec<(Vec<K>, V)>)
        requires
            self.wf(),
        ensures
            forall|i: int| 0 <= i < r@.len() ==> #[trigger] self@.contains_key(r@[i].0@) && r@[i].1 == self@[r@[i].0@],
            forall|k: Seq<K>| #[trigger] self@.contains_key(k) ==> exists|i: int| 0 <= i < r@.len() && r@[i].0@ == k,
            forall|i: int, j: int| 0 <= i < j < r@.len() ==> #[trigger] r@[i].0@ != #[trigger] r@[j].0@,
            B::ordered() ==> forall|i: int, j: int| 0 <= i < j < r@.len() ==> key_lt(#[trigger] r@[i].0@, #[trigger] r@[j].0@),
    {
        let ghost orig = self@;
        let mut this = self;
        let entries = this.iter();
        let mut keys: Vec<Vec<K>> = Vec::new();
        let mut i: usize = 0;
        while i < entries.len()
            invariant
                i <= entries@.len(),
                keys@.len() == i,
                forall|j: int| 0 <= j < i ==> (#[trigger] keys@[j])@ == entries@[j].0@,
            decreases entries@.len() - i,
        {
            keys.push(copy_range(entries[i].0.as_slice(), 0, entries[i].0.len()));
            proof {
                assert(entries@[i as int].0@.subrange(0, entries@[i as int].0@.len() as int) =~= entries@[i as int].0@);
            }
            i += 1;
        }
        let ghost ks = keys@.map_values(|k: Vec<K>| k@);
        proof {
            assert forall|j: int| 0 <= j < ks.len() implies #[trigger] ks[j] == entries@[j].0@ by {
            }
        }
        let mut out: Vec<(Vec<K>, V)> = Vec::new();
        let mut i: usize = 0;
        while i < keys.len()
            invariant
                this.wf(),
                i <= keys@.len(),
                ks.len() == keys@.len(),
                forall|j: int| 0 <= j < keys@.len() ==> (#[trigger] keys@[j])@ == ks[j],
                forall|j: int| 0 <= j < ks.len() ==> #[trigger] orig.contains_key(ks[j]),
                forall|a: int, b: int| 0 <= a < b < ks.len() ==> #[trigger] ks[a] != #[trigger] ks[b],
                out@.len() == i,
                forall|j: int| 0 <= j < i ==> (#[trigger] out@[j]).0@ == ks[j] && out@[j].1 == orig[ks[j]],
                forall|k: Seq<K>| #[trigger] this@.contains_key(k) <==> orig.contains_key(k) && !ks.take(i as int).contains(k),
                forall|k: Seq<K>| #[trigger] this@.contains_key(k) ==> this@[k] == orig[k],
            decreases keys@.len() - i,
        {
            let ghost before = this@;
            let removed = this.remove(keys[i].as_slice());
            proof {
                let k = ks[i as int];
                assert(!ks.take(i as int).contains(k)) by {
                    if ks.take(i as int).contains(k) {
                        let j = choose|j: int| 0 <= j < i && #[trigger] ks.take(i as int)[j] == k;
                        assert(ks[j] == k);
                    }
                }
                assert(before.contains_key(k));
                assert forall|q: Seq<K>| #[trigger] this@.contains_key(q) <==> orig.contains_key(q) && !ks.take(i + 1).contains(q) by {
                    if ks.take(i + 1).contains(q) && !ks.take(i as int).contains(q) {
                        let j = choose|j: int| 0 <= j < i + 1 && #[trigger] ks.take(i + 1)[j] == q;
                        if j < i {
                            assert(ks.take(i as int)[j] == q);
                        }
                    }
                    if ks.take(i as int).contains(q) {
                        let j = choose|j: int| 0 <= j < i && #[trigger] ks.take(i as int)[j] == q;
                        assert(ks.take(i + 1)[j] == q);
                    }
                    if q == k {
                        assert(ks.take(i + 1)[i as int] == q);
                    }
                }
            }
            match removed {
                Some(v) => {
                    let key = copy_range(keys[i].as_slice(), 0, keys[i].len());
                    proof {
                        assert(keys@[i as int]@.subrange(0, keys@[i as int]@.len() as int) =~= keys@[i as int]@);
                    }
                    out.push((key, v));
                },
                None => {
                    proof {
                        assert(false);
                    }
                },
            }
            i += 1;
        }
        proof {
            assert forall|k: Seq<K>| #[trigger] orig.contains_key(k) implies exists|j: int| 0 <= j < out@.len() && out@[j].0@ == k by {
                let j = choose|j: int| 0 <= j < entries@.len() && entries@[j].0@ == k;
                assert(out@[j].0@ == k);
            }
            assert forall|a: int, b: int| 0 <= a < b < out@.len() implies #[trigger] out@[a].0@ != #[trigger] out@[b].0@ by {
                assert(ks[a] == entries@[a].0@ && ks[b] == entries@[b].0@);
            }
            if B::ordered() {
                assert forall|a: int, b: int| 0 <= a < b < out@.len() implies key_lt(#[trigger] out@[a].0@, #[trigger] out@[b].0@) by {
                    assert(ks[a] == entries@[a].0@ && ks[b] == entries@[b].0@);
                }
            }
        }
        out
    }

    /// The number of stored keys; counts them by walking the trie.
    pub fn len(&self) -> (r: usize)
        requires
            self.wf(),
        ensures
            r == self@.len(),
    {
        let entries = self.iter();
        proof {
            let ks = keys_of(entries@);
            assert forall|i: int, j: int| 0 <= i < ks.len() && 0 <= j < ks.len() && i != j implies ks[i] != ks[j] by {
                assert(ks[i] == entries@[i].0@);
                assert(ks[j] == entries@[j].0@);
                if i < j {
                    assert(entries@[i].0@ != entries@[j].0@);
                } else {
                    assert(entries@[j].0@ != entries@[i].0@);
                }
            }
            assert(ks.no_duplicates());
            ks.unique_seq_to_set();
            assert forall|k: Seq<K>| #[trigger] ks.to_set().contains(k) == self@.dom().contains(k) by {
                if self@.contains_key(k) {
                    let i = choose|i: int| 0 <= i < entries@.len() && entries@[i].0@ == k;
                    assert(ks[i] == k);
                }
                if ks.to_set().contains(k) {
                    let i = choose|i: int| 0 <= i < ks.len() && ks[i] == k;
                    assert(entries@[i].0@ == k);
                }
            }
            assert(ks.to_set() =~= self@.dom());
        }
        entries.len()
    }

    /// An empty trie: a single empty root node.
    pub fn new() -> (r: Self)
        ensures
            r.wf(),
            r@ == Map::<Seq<K>, V>::empty(),
            r.is_pristine(),
    {
        let mut nodes: Arena<Node<K, V, B>> = Arena::new();
        let root = nodes.insert(Node::empty());
        let root = root.index();
        let ghost pos = map![root => Seq::<K>::empty()];
        let ghost key_node = Map::<Seq<K>, usize>::empty();
        let ghost owners = Map::<usize, usize>::empty();
        let r = Trie {
            root,
            nodes,
            branches: Arena::new(),
            leaves: Arena::new(),
            pos: Ghost(pos),
            key_node: Ghost(key_node),
            leaf_owner: Ghost(owners),
            branch_owner: Ghost(owners),
            depth: Ghost(0),
        };
        proof {
            assert(r.nodes@.dom() =~= set![root]);
            assert forall|n: usize, p: K| #[trigger] r.has_child(n, p) implies r.child_ok(n, p) by {
            }
            assert(r@ =~= Map::<Seq<K>, V>::empty());
        }
        r
    }

    /// An empty trie whose arenas have room for `capacity` entries each.
    pub fn with_capacity(capacity: usize) -> (r: Self)
        ensures
            r.wf(),
            r@ == Map::<Seq<K>, V>::empty(),
            r.is_pristine(),
    {
        let mut nodes: Arena<Node<K, V, B>> = Arena::with_capacity(capacity);
        let root = nodes.insert(Node::empty());
        let root = root.index();
        let ghost pos = map![root => Seq::<K>::empty()];
        let ghost key_node = Map::<Seq<K>, usize>::empty();
        let ghost owners = Map::<usize, usize>::empty();
        let r = Trie {
            root,
            nodes,
            branches: Arena::with_capacity(capacity),
            leaves: Arena::with_capacity(capacity),
            pos: Ghost(pos),
            key_node: Ghost(key_node),
            leaf_owner: Ghost(owners),
            branch_owner: Ghost(owners),
            depth: Ghost(0),
        };
        proof {
            assert(r.nodes@.dom() =~= set![root]);
            assert forall|n: usize, p: K| #[trigger] r.has_child(n, p) implies r.child_ok(n, p) by {
            }
            assert(r@ =~= Map::<Seq<K>, V>::empty());
        }
        r
    }

    /// Removes every key, leaving the shape of a new trie.
    pub fn clear(&mut self)
        ensures
            final(self).wf(),
            final(self)@ == Map::<Seq<K>, V>::empty(),
            final(self).is_pristine(),
    {
        *self = Trie::new();
    }

    /// A trie holding the given pairs, inserted in order: a later pair
    /// replaces an earlier one with the same key.
    pub fn from_pairs(pairs: Vec<(Vec<K>, V)>) -> (r: Self)
        ensures
            r.wf(),
            r@ == inserted_all(Map::<Seq<K>, V>::empty(), pairs@.map_values(|e: (Vec<K>, V)| (e.0@, e.1))),
    {
        let ghost all = pairs@.map_values(|e: (Vec<K>, V)| (e.0@, e.1));
        let mut r = Trie::with_capacity(pairs.len());
        let ghost orig = pairs@;
        let n = pairs.len();
        let mut src = pairs;
        let mut rest: Vec<(Vec<K>, V)> = Vec::new();
        while src.len() > 0
            invariant
                n == orig.len(),
                src@.len() + rest@.len() == n,
                forall|j: int| 0 <= j < src@.len() ==> #[trigger] src@[j] == orig[j],
                forall|j: int| 0 <= j < rest@.len() ==> #[trigger] rest@[j] == orig[n - 1 - j],
            decreases src@.len(),
        {
            match src.pop() {
                Some(e) => rest.push(e),
                None => {},
            }
        }
        let mut i: usize = 0;
        proof {
            assert(all.take(0) =~= Seq::<(Seq<K>, V)>::empty());
        }
        while rest.len() > 0
            invariant
                r.wf(),
                n == all.len(),
                i + rest@.len() == n,
                forall|j: int| 0 <= j < rest@.len() ==> (#[trigger] rest@[j]).0@ == all[n - 1 - j].0 && rest@[j].1 == all[n - 1 - j].1,
                r@ == inserted_all(Map::<Seq<K>, V>::empty(), all.take(i as int)),
            decreases rest@.len(),
        {
            let ghost before = rest@;
            let (k, v) = match rest.pop() {
                Some(e) => e,
                None => {
                    proof {
                        assert(false);
                    }
                    vstd::pervasive::unreached()
                },
            };
            proof {
                assert(k@ == all[i as int].0 && v == all[i as int].1);
                assert(all.take(i + 1).drop_last() =~= all.take(i as int));
            }
            r.insert(k.as_slice(), v);
            i += 1;
            proof {
                assert forall|j: int| 0 <= j < rest@.len() implies (#[trigger] rest@[j]).0@ == all[n - 1 - j].0 && rest@[j].1
                    == all[n - 1 - j].1 by {
                    assert(rest@[j] == before[j]);
                }
            }
        }
        proof {
            assert(all.take(n as int) =~= all);
        }
        r
    }

    /// The shape of a freshly built trie: one empty root node without
    /// prefix, and no branch or leaf anywhere.
    pub closed spec fn is_pristine(&self) -> bool {
        &&& self.nodes@.dom() == set![self.root]
        &&& self.node(self.root).spec_is_empty()
        &&& self.pre(self.root) == Seq::<K>::empty()
        &&& self.branches@.dom() == Set::<usize>::empty()
        &&& self.leaves@.dom() == Set::<usize>::empty()
    }

    /// True iff no key is stored.
    pub fn is_empty(&self) -> (r: bool)
        requires
            self.wf(),
        ensures
            r == (self@ == Map::<Seq<K>, V>::empty()),
    {
        let r = self.nodes.get(&Handle::from(self.root)).is_empty();
        proof {
            if r {
                assert forall|k: Seq<K>| !#[trigger] self.key_node@.contains_key(k) by {
                    if self.key_node@.contains_key(k) {
                        let x = self.key_node@[k];
                        if x != self.root {
                            self.lemma_root_branch(x);
                        }
                    }
                }
                assert(self@ =~= Map::<Seq<K>, V>::empty());
            } else {
                let x = self.lemma_leaf_below(self.root);
                self.lemma_stored(x);
                assert(self@.contains_key(self.full(x)));
            }
        }
        r
    }

    /// The leaf stored under exactly `key`.
    fn find_leaf(&self, key: &[K]) -> (r: Option<Handle<Leaf<V>>>)
        requires
            self.wf(),
        ensures
            r is Some == self@.contains_key(key@),
            r is Some ==> self.leaves@.contains_key(r->Some_0.spec_index()) && self@[key@]
                == self.leaves@[r->Some_0.spec_index()].spec_value(),
            r is Some ==> self.key_node@.contains_key(key@) && self.node(self.key_node@[key@]).leaf_of() == Some(
                r->Some_0.spec_index(),
            ),
    {
        let klen = key.len();
        let mut cur: usize = self.root;
        let mut i: usize = 0;
        loop
            invariant
                self.wf(),
                self.live(cur),
                klen == key@.len(),
                i <= key@.len(),
                self.pos@[cur] == key@.take(i as int),
            decreases key@.len() - i,
        {
            let node = self.nodes.get(&Handle::from(cur));
            let j = match_len(node.prefix(), key, i);
            let at = i + j;
            proof {
                self.lemma_node(cur);
            }
            proof {
                assert forall|t: int| 0 <= t < at implies #[trigger] self.full(cur)[t] == key@[t] by {
                    if t >= i {
                        assert(node.spec_prefix()[t - i] == key@[i + (t - i)]);
                    }
                }
                assert(self.full(cur).take(at as int) =~= key@.take(at as int));
                assert(self.covers(cur, key@, at as int));
            }
            if j < node.prefix().len() {
                proof {
                    self.lemma_not_stored(cur, key@, at as int);
                }
                return None;
            }
            if at == key.len() {
                proof {
                    assert(self.full(cur) =~= key@);
                }
                match node.leaf() {
                    Some(l) => {
                        proof {
                            self.lemma_stored(cur);
                        }
                        return Some(l);
                    },
                    None => {
                        proof {
                            self.lemma_not_stored(cur, key@, at as int);
                        }
                        return None;
                    },
                }
            }
            let child = match node.branch() {
                Some(b) => self.branches.get(&b).get(&key[at]),
                None => None,
            };
            match child {
                Some(c) => {
                    proof {
                        assert(self.has_child(cur, key@[at as int]));
                        assert(self.child_ok(cur, key@[at as int]));
                        assert(self.full(cur) =~= key@.take(at as int));
                        assert(self.pos@[c] =~= key@.take(at + 1));
                    }
                    cur = c;
                    i = at + 1;
                },
                None => {
                    proof {
                        self.lemma_node(cur);
                        self.lemma_not_stored(cur, key@, at as int);
                    }
                    return None;
                },
            }
        }
    }

    /// Cursor `v` names a node and a place within or at the end of its prefix.
    pub closed spec fn is_position(&self, v: VNode) -> bool {
        self.live(v.spec_handle()) && v.spec_prefix_len() <= self.pre(v.spec_handle()).len()
    }

    /// The path at cursor `v` goes on with piece `p`: inside the edge its
    /// next piece is `p`, at the node's end there is a child for `p`.
    pub closed spec fn can_extend(&self, v: VNode, p: K) -> bool {
        let h = v.spec_handle();
        let j = v.spec_prefix_len() as int;
        if j < self.pre(h).len() {
            self.pre(h)[j] == p
        } else {
            self.has_child(h, p)
        }
    }

    /// The pieces on the path from the root to cursor `v`.
    pub closed spec fn path_to(&self, v: VNode) -> Seq<K> {
        self.pos@[v.spec_handle()] + self.pre(v.spec_handle()).take(v.spec_prefix_len() as int)
    }

    /// Follows `key` from the root as far as the trie's paths agree with
    /// it. Returns the cursor where the walk stops and how many pieces of
    /// `key` it consumed; no stored key that is a prefix of `key` is longer.
    pub fn descend(&self, key: &[K]) -> (r: (VNode, usize))
        requires
            self.wf(),
        ensures
            self.is_position(r.0),
            r.1 <= key@.len(),
            self.path_to(r.0) == key@.take(r.1 as int),
            forall|k: Seq<K>| #[trigger] self@.contains_key(k) && is_prefix(k, key@) ==> k.len() <= r.1,
            r.1 == key@.len() || !self.can_extend(r.0, key@[r.1 as int]),
    {
        let klen = key.len();
        let mut cur = VNode::start(self.root);
        let mut i: usize = 0;
        loop
            invariant
                self.wf(),
                self.live(cur.spec_handle()),
                cur.spec_prefix_len() == 0,
                klen == key@.len(),
                i <= key@.len(),
                self.pos@[cur.spec_handle()] == key@.take(i as int),
            decreases key@.len() - i,
        {
            let h = cur.handle();
            let node = self.nodes.get(&Handle::from(h));
            let j = match_len(node.prefix(), key, i);
            let at = i + j;
            proof {
                self.lemma_node(h);
                assert forall|t: int| 0 <= t < at implies #[trigger] self.full(h)[t] == key@[t] by {
                    if t >= i {
                        assert(node.spec_prefix()[t - i] == key@[i + (t - i)]);
                    }
                }
                assert(self.full(h).take(at as int) =~= key@.take(at as int));
                assert(self.covers(h, key@, at as int));
            }
            let stop = VNode::at(h, j);
            proof {
                assert(self.path_to(stop) =~= key@.take(at as int));
            }
            let plen = node.prefix().len();
            if j < plen || at == klen {
                proof {
                    if j < plen {
                        self.lemma_stuck(h, key@, at as int);
                    }
                    assert forall|k: Seq<K>| #[trigger] self@.contains_key(k) && is_prefix(k, key@) implies k.len() <= at by {
                        self.lemma_key(k);
                        assert(self.full(self.key_node@[k]) == k);
                    }
                }
                return (stop, at);
            }
            let child = match node.branch() {
                Some(b) => self.branches.get(&b).get(&key[at]),
                None => None,
            };
            match child {
                Some(c) => {
                    proof {
                        assert(self.has_child(h, key@[at as int]));
                        assert(self.child_ok(h, key@[at as int]));
                        assert(self.full(h) =~= key@.take(at as int));
                        assert(self.pos@[c] =~= key@.take(at + 1));
                    }
                    cur = VNode::start(c);
                    i = at + 1;
                },
                None => {
                    proof {
                        self.lemma_stuck(h, key@, at as int);
                        assert forall|k: Seq<K>| #[trigger] self@.contains_key(k) && is_prefix(k, key@) implies k.len() <= at by {
                            self.lemma_key(k);
                            assert(self.full(self.key_node@[k]) == k);
                        }
                    }
                    return (stop, at);
                },
            }
        }
    }

    /// The value stored under exactly `key`.
    pub fn get(&self, key: &[K]) -> (r: Option<&V>)
        requires
            self.wf(),
        ensures
            deref_opt(r) == lookup(self@, key@),
    {
        match self.find_leaf(key) {
            Some(l) => Some(self.leaves.get(&l).get()),
            None => None,
        }
    }

    /// The value under exactly `key`, or else, as the error, the value under
    /// the longest stored key that is a prefix of `key`.
    pub fn try_get(&self, key: &[K]) -> (r: Result<&V, Option<&V>>)
        requires
            self.wf(),
        ensures
            match r {
                Ok(v) => self@.contains_key(key@) && *v == self@[key@],
                Err(d) => !self@.contains_key(key@) && deref_opt(d) == longest_prefix(self@, key@),
            },
    {
        match self.get(key) {
            Some(v) => Ok(v),
            None => Err(self.get_deepest(key)),
        }
    }

    /// The value under exactly `key`, or else, as the error, the value under
    /// the longest stored key that is a prefix of `key`; to be changed in place.
    pub fn try_get_mut(&mut self, key: &[K]) -> (r: Result<&mut V, Option<&mut V>>)
        requires
            old(self).wf(),
        ensures
            final(self).wf(),
            match r {
                Ok(v) => {
                    &&& old(self)@.contains_key(key@)
                    &&& *v == old(self)@[key@]
                    &&& final(self)@ == old(self)@.insert(key@, *final(v))
                },
                Err(Some(v)) => {
                    &&& !old(self)@.contains_key(key@)
                    &&& deepest_len(old(self)@, key@, key@.len() as int) is Some
                    &&& longest_prefix(old(self)@, key@) == Some(*v)
                    &&& final(self)@ == old(self)@.insert(
                        key@.take(deepest_len(old(self)@, key@, key@.len() as int)->Some_0),
                        *final(v),
                    )
                },
                Err(None) => {
                    &&& !old(self)@.contains_key(key@)
                    &&& longest_prefix(old(self)@, key@) is None
                    &&& final(self)@ == old(self)@
                },
            },
    {
        match self.find_leaf(key) {
            Some(l) => Ok(self.leaf_mut(&l, Ghost(key@))),
            None => match self.find_deepest_leaf(key) {
                Some(l) => Err(
                    Some(self.leaf_mut(&l, Ghost(key@.take(deepest_len(self@, key@, key@.len() as int)->Some_0)))),
                ),
                None => Err(None),
            },
        }
    }

    /// The value stored under exactly `key`, to be changed in place.
    pub fn get_mut(&mut self, key: &[K]) -> (r: Option<&mut V>)
        requires
            old(self).wf(),
        ensures
            final(self).wf(),
            match r {
                Some(v) => {
                    &&& old(self)@.contains_key(key@)
                    &&& *v == old(self)@[key@]
                    &&& final(self)@ == old(self)@.insert(key@, *final(v))
                },
                None => !old(self)@.contains_key(key@) && final(self)@ == old(self)@,
            },
    {
        match self.find_leaf(key) {
            Some(l) => Some(self.leaf_mut(&l, Ghost(key@))),
            None => None,
        }
    }

    /// The value under the longest stored key that is a prefix of `key`.
    pub fn get_deepest(&self, key: &[K]) -> (r: Option<&V>)
        requires
            self.wf(),
        ensures
            deref_opt(r) == longest_prefix(self@, key@),
    {
        match self.find_deepest_leaf(key) {
            Some(l) => Some(self.leaves.get(&l).get()),
            None => None,
        }
    }

    /// The value under the longest stored key that is a prefix of `key`,
    /// to be changed in place.
    pub fn get_deepest_mut(&mut self, key: &[K]) -> (r: Option<&mut V>)
        requires
            old(self).wf(),
        ensures
            final(self).wf(),
            match r {
                Some(v) => {
                    &&& deepest_len(old(self)@, key@, key@.len() as int) is Some
                    &&& longest_prefix(old(self)@, key@) == Some(*v)
                    &&& final(self)@ == old(self)@.insert(
                        key@.take(deepest_len(old(self)@, key@, key@.len() as int)->Some_0),
                        *final(v),
                    )
                },
                None => longest_prefix(old(self)@, key@) is None && final(self)@ == old(self)@,
            },
    {
        match self.find_deepest_leaf(key) {
            Some(l) => Some(self.leaf_mut(&l, Ghost(key@.take(deepest_len(self@, key@, key@.len() as int)->Some_0)))),
            None => None,
        }
    }

    /// The value of the leaf stored under `k`, to be changed in place.
    fn leaf_mut(&mut self, l: &Handle<Leaf<V>>, k: Ghost<Seq<K>>) -> (r: &mut V)
        requires
            old(self).wf(),
            old(self).key_node@.contains_key(k@),
            old(self).node(old(self).key_node@[k@]).leaf_of() == Some(l.spec_index()),
        ensures
            final(self).wf(),
            *r == old(self)@[k@],
            final(self)@ == old(self)@.insert(k@, *final(r)),
    {
        proof {
            old(self).lemma_key(k@);
            old(self).lemma_leaf_update(l.spec_index(), k@);
        }
        self.leaves.get_mut(l).get_mut()
    }

    /// `self` differs from `o` only in the value of leaf `l`.
    spec fn leaf_updated(&self, o: Self, l: usize) -> bool {
        &&& self.root == o.root
        &&& self.nodes == o.nodes
        &&& self.branches == o.branches
        &&& self.pos == o.pos
        &&& self.key_node == o.key_node
        &&& self.leaf_owner == o.leaf_owner
        &&& self.branch_owner == o.branch_owner
        &&& self.depth == o.depth
        &&& self.leaves.wf()
        &&& self.leaves@ == o.leaves@.insert(l, self.leaves@[l])
    }

    /// Changing the value of the leaf of `k` keeps the trie well formed and
    /// changes only the value stored under `k`.
    proof fn lemma_leaf_update(&self, l: usize, k: Seq<K>)
        requires
            self.wf(),
            self.key_node@.contains_key(k),
            self.node(self.key_node@[k]).leaf_of() == Some(l),
        ensures
            forall|s: Self| s.leaf_updated(*self, l) ==> #[trigger] s.wf(),
            forall|s: Self|
                s.leaf_updated(*self, l) ==> #[trigger] s.view() == self@.insert(k, s.leaves@[l].spec_value()),
    {
        self.lemma_key(k);
        assert forall|s: Self| s.leaf_updated(*self, l) implies s.leaves@.dom() == self.leaves@.dom() by {
            assert(s.leaves@.dom() =~= self.leaves@.dom());
        }
        assert forall|s: Self| s.leaf_updated(*self, l) implies #[trigger] s.wf() by {
            assert(s.leaves@.dom() =~= self.leaves@.dom());
            assert forall|n: usize| #[trigger] s.nodes@.contains_key(n) implies s.node_ok(n) by {
                self.lemma_node(n);
            }
            assert forall|n: usize, q: K| #[trigger] s.has_child(n, q) implies s.child_ok(n, q) by {
                self.lemma_child(n, q);
            }
            assert forall|n: usize| s.nodes@.contains_key(n) implies #[trigger] s.compressed_at(n) by {
                assert(self.compressed_at(n));
            }
        }
        assert forall|s: Self| s.leaf_updated(*self, l) implies #[trigger] s.view() == self@.insert(k, s.leaves@[l].spec_value()) by {
            assert(s.leaves@.dom() =~= self.leaves@.dom());
            assert forall|j: Seq<K>| #[trigger] s@.contains_key(j) implies s@[j] == self@.insert(k, s.leaves@[l].spec_value())[j] by {
                if j != k {
                    self.lemma_key(j);
                    let x = self.key_node@[j];
                    assert(x != self.key_node@[k]);
                    assert(self.leaf_owner@[l] == self.key_node@[k]);
                }
            }
            assert(s@ =~= self@.insert(k, s.leaves@[l].spec_value()));
        }
    }

    spec fn leaf_for(&self, key: Seq<K>, j: Option<int>) -> Option<usize> {
        match j {
            Some(j) => self.node(self.key_node@[key.take(j)]).leaf_of(),
            None => None,
        }
    }

    /// The leaf under the longest stored key that is a prefix of `key`.
    #[verifier::rlimit(100)]
    fn find_deepest_leaf(&self, key: &[K]) -> (r: Option<Handle<Leaf<V>>>)
        requires
            self.wf(),
        ensures
            r is Some == longest_prefix(self@, key@) is Some,
            r is Some ==> self.leaves@.contains_key(r->Some_0.spec_index()) && longest_prefix(self@, key@)->Some_0
                == self.leaves@[r->Some_0.spec_index()].spec_value(),
            r is Some ==> self.key_node@.contains_key(key@.take(deepest_len(self@, key@, key@.len() as int)->Some_0))
                && self.node(self.key_node@[key@.take(deepest_len(self@, key@, key@.len() as int)->Some_0)]).leaf_of()
                == Some(r->Some_0.spec_index()),
    {
        let klen = key.len();
        let mut cur: usize = self.root;
        let mut i: usize = 0;
        let mut best: Option<Handle<Leaf<V>>> = None;
        let ghost q = key@;
        let ghost m = self@;
        loop
            invariant
                self.wf(),
                m == self@,
                q == key@,
                self.live(cur),
                klen == key@.len(),
                i <= key@.len(),
                self.pos@[cur] == key@.take(i as int),
                crate::handle::opt_index(best) == self.leaf_for(q, deepest_len(m, q, i - 1)),
                deepest_len(m, q, i - 1) is Some ==> m.contains_key(q.take(deepest_len(m, q, i - 1)->Some_0)),
            decreases key@.len() - i,
        {
            let node = self.nodes.get(&Handle::from(cur));
            let j = match_len(node.prefix(), key, i);
            let at = i + j;
            proof {
                self.lemma_node(cur);
            }
            proof {
                assert forall|t: int| 0 <= t < at implies #[trigger] self.full(cur)[t] == key@[t] by {
                    if t >= i {
                        assert(node.spec_prefix()[t - i] == key@[i + (t - i)]);
                    }
                }
                assert(self.full(cur).take(at as int) =~= key@.take(at as int));
                assert forall|t: int| i <= t <= at implies #[trigger] self.covers(cur, q, t) by {
                    assert(self.full(cur).take(t) =~= key@.take(t));
                }
                assert forall|t: int| i - 1 < t <= at && t < self.full(cur).len() implies !m.contains_key(
                    #[trigger] q.take(t),
                ) by {
                    self.lemma_interior(cur, q, t);
                }
            }
            if j < node.prefix().len() {
                proof {
                    self.lemma_stuck(cur, q, at as int);
                    assert forall|t: int| i - 1 < t <= q.len() implies !m.contains_key(#[trigger] q.take(t)) by {
                        if t > at && m.contains_key(q.take(t)) {
                            let x = self.key_node@[q.take(t)];
                            assert(self.full(x) == q.take(t));
                        }
                    }
                    lemma_deepest_skip(m, q, i - 1, q.len() as int);
                }
                proof {
                    if deepest_len(m, q, q.len() as int) is Some {
                        self.lemma_key(q.take(deepest_len(m, q, q.len() as int)->Some_0));
                    }
                }
                return best;
            }
            proof {
                lemma_deepest_skip(m, q, i - 1, at - 1);
            }
            match node.leaf() {
                Some(l) => {
                    proof {
                        self.lemma_stored(cur);
                        assert(self.full(cur) =~= q.take(at as int));
                    }
                    best = Some(l);
                },
                None => {
                    proof {
                        self.lemma_node(cur);
                        if m.contains_key(q.take(at as int)) {
                            let x = self.key_node@[q.take(at as int)];
                            assert(self.full(x).take(at as int) =~= q.take(at as int));
                            assert(self.covers(x, q, at as int));
                            self.lemma_unique_cover(x, cur, q, at as int);
                        }
                    }
                },
            }
            if at == key.len() {
                proof {
                    assert(q.take(q.len() as int) =~= q);
                }
                proof {
                    if deepest_len(m, q, q.len() as int) is Some {
                        self.lemma_key(q.take(deepest_len(m, q, q.len() as int)->Some_0));
                    }
                }
                return best;
            }
            let child = match node.branch() {
                Some(b) => self.branches.get(&b).get(&key[at]),
                None => None,
            };
            match child {
                Some(c) => {
                    proof {
                        assert(self.has_child(cur, key@[at as int]));
                        assert(self.child_ok(cur, key@[at as int]));
                        assert(self.full(cur) =~= key@.take(at as int));
                        assert(self.pos@[c] =~= key@.take(at + 1));
                    }
                    cur = c;
                    i = at + 1;
                },
                None => {
                    proof {
                        self.lemma_node(cur);
                        self.lemma_stuck(cur, q, at as int);
                        assert forall|t: int| at < t <= q.len() implies !m.contains_key(#[trigger] q.take(t)) by {
                            if m.contains_key(q.take(t)) {
                                let x = self.key_node@[q.take(t)];
                                assert(self.full(x) == q.take(t));
                            }
                        }
                        lemma_deepest_skip(m, q, at as int, q.len() as int);
                    }
                    proof {
                        if deepest_len(m, q, q.len() as int) is Some {
                            self.lemma_key(q.take(deepest_len(m, q, q.len() as int)->Some_0));
                        }
                    }
                    return best;
                },
            }
        }
    }

    /// Hangs a new leaf node for `key` below `cur`, whose full key is the
    /// first `at` pieces of `key` and which has no child for the next piece.
    #[verifier::rlimit(80)]
    fn attach_child(&mut self, cur: usize, at: usize, key: &[K], value: V) -> (c: usize)
        requires
            old(self).shape_ok(),
            old(self).compressed_except(cur),
            old(self).live(cur),
            at < key@.len(),
            old(self).full(cur) == key@.take(at as int),
            !old(self).has_child(cur, key@[at as int]),
            !old(self).node(cur).spec_is_empty(),
        ensures
            final(self).wf(),
            final(self)@ == old(self)@.insert(key@, value),
            final(self).root == old(self).root,
            !old(self)@.contains_key(key@),
            !old(self).live(c),
            final(self).live(c),
            final(self).node(c).spec_previous() == cur,
            final(self).pre(c) == key@.skip(at + 1),
            final(self).node(c).branch_of() is None,
            final(self).node(c).leaf_of() is Some,
            !old(self).leaves@.contains_key(final(self).node(c).leaf_of().unwrap()),
            final(self).leaf_value(c) == value,
            final(self).pre(cur) == old(self).pre(cur),
            final(self).node(cur).spec_previous() == old(self).node(cur).spec_previous(),
            final(self).node(cur).leaf_of() == old(self).node(cur).leaf_of(),
            final(self).node(cur).branch_of() is Some,
            old(self).node(cur).branch_of() is Some ==> final(self).node(cur).branch_of() == old(self).node(cur).branch_of(),
            old(self).node(cur).branch_of() is None ==> !old(self).branches@.contains_key(
                final(self).node(cur).branch_of().unwrap(),
            ),
            final(self).bview(cur) == (if old(self).node(cur).branch_of() is Some {
                old(self).bview(cur)
            } else {
                Map::<K, usize>::empty()
            }).insert(key@[at as int], c),
    {
        proof {
            old(self).lemma_node(cur);
            assert(old(self).pos@[cur].len() <= old(self).full(cur).len());
            assert(old(self).full(cur).take(at as int) =~= key@.take(at as int));
            old(self).lemma_not_stored(cur, key@, at as int);
        }
        let p = key[at];
        let l = self.leaves.insert(Leaf::new(value));
        let suffix = tail(key, at + 1);
        let c = self.nodes.insert(Node::from(cur, suffix, DataHandle::Leaf(l.leak())));
        let c = c.index();
        let node = self.nodes.replace(&Handle::from(cur), Node::empty());
        let (previous, prefix, data) = node.into_parts();
        let (leaf, branch) = data.leaf_branch();
        let ghost new_branch: Option<usize> = None;
        let new_data = match branch {
            Some(b) => {
                let mut br = self.branches.replace(&b, B::new());
                br.insert(p, c);
                self.branches.replace(&b, br);
                data
            },
            None => {
                let mut br = B::new();
                br.insert(p, c);
                let b = self.branches.insert(br);
                proof {
                    new_branch = Some(b.spec_index());
                }
                DataHandle::from_parts(leaf, Some(b))
            },
        };
        self.nodes.replace(&Handle::from(cur), Node::from(previous, prefix, new_data));
        self.pos = Ghost(self.pos@.insert(c, key@.take(at + 1)));
        self.leaf_owner = Ghost(self.leaf_owner@.insert(l.spec_index(), c));
        self.key_node = Ghost(self.key_node@.insert(key@, c));
        self.branch_owner = Ghost(
            if new_branch is Some {
                self.branch_owner@.insert(new_branch->Some_0, cur)
            } else {
                self.branch_owner@
            },
        );
        self.depth = Ghost(if self.depth@ >= key@.len() { self.depth@ } else { key@.len() });
        proof {
            let o = old(self);
            assert(self.full(c) =~= key@);
            assert(o.full(cur).push(p) =~= key@.take(at + 1));
            assert(self.full(cur) == o.full(cur));
            assert forall|n: usize| #[trigger] self.nodes@.contains_key(n) implies self.node_ok(n) by {
                if n != c {
                    o.lemma_node(n);
                    assert(self.full(n) == o.full(n));
                    if n != self.root {
                        o.lemma_parent(n);
                        let par = self.node(n).spec_previous();
                        o.lemma_node(par);
                        assert(o.has_child(par, o.pos@[n].last()));
                        assert(self.full(par) == o.full(par));
                        assert(self.parent_ok(n));
                    }
                    if o.node(n).leaf_of() is Some {
                        assert(o.key_node@.contains_key(o.full(n)));
                    }
                    if self.node(n).branch_of() is Some {
                        let b = self.node(n).branch_of().unwrap();
                        assert(self.branches@.contains_key(b));
                        assert(self.branches@[b].wf());
                        assert(self.branches@[b].size() >= 1);
                        assert(self.branch_owner@.contains_key(b));
                        assert(self.branch_owner@[b] == n);
                    }
                } else {
                    assert(self.parent_ok(n));
                }
            }
            assert forall|n: usize, q: K| #[trigger] self.has_child(n, q) implies self.child_ok(n, q) by {
                if n != cur || q != p {
                    assert(o.has_child(n, q));
                    assert(o.child_ok(n, q));
                }
            }
            assert forall|n: usize| #[trigger] self.nodes@.contains_key(n) implies self.compressed_at(n) by {
                if n != c && n != cur {
                    assert(o.compressed_at(n));
                }
            }
            assert forall|k: Seq<K>| #[trigger] self@.contains_key(k) implies self@[k] == o@.insert(key@, value)[k] by {
                if k != key@ {
                    o.lemma_key(k);
                }
            }
            assert(self@ =~= o@.insert(key@, value));
        }
        c
    }

    /// Stores the first key in a trie whose root is empty.
    fn fill_root(&mut self, key: &[K], value: V)
        requires
            old(self).wf(),
            old(self).node(old(self).root).spec_is_empty(),
        ensures
            final(self).wf(),
            final(self)@ == old(self)@.insert(key@, value),
            final(self).root == old(self).root,
            final(self).pre(final(self).root) == key@,
            final(self).node(final(self).root).spec_previous() == old(self).node(old(self).root).spec_previous(),
            final(self).node(final(self).root).branch_of() is None,
            final(self).node(final(self).root).leaf_of() is Some,
            !old(self).leaves@.contains_key(final(self).node(final(self).root).leaf_of().unwrap()),
            final(self).leaf_value(final(self).root) == value,
    {
        let ghost o = *old(self);
        proof {
            assert forall|k: Seq<K>| !#[trigger] o.key_node@.contains_key(k) by {
                if o.key_node@.contains_key(k) {
                    let x = o.key_node@[k];
                    if x != o.root {
                        o.lemma_root_branch(x);
                    }
                }
            }
            assert forall|n: usize| #[trigger] o.nodes@.contains_key(n) implies n == o.root by {
                if n != o.root {
                    o.lemma_root_branch(n);
                }
            }
            assert forall|b: usize| !#[trigger] o.branches@.contains_key(b) by {
            }
            assert forall|l: usize| !#[trigger] o.leaves@.contains_key(l) by {
            }
        }
        let root = self.root;
        let l = self.leaves.insert(Leaf::new(value));
        let previous = self.nodes.get(&Handle::from(root)).previous();
        let prefix = tail(key, 0);
        self.nodes.replace(&Handle::from(root), Node::from(previous, prefix, DataHandle::Leaf(l.leak())));
        self.leaf_owner = Ghost(self.leaf_owner@.insert(l.spec_index(), root));
        self.key_node = Ghost(self.key_node@.insert(key@, root));
        self.depth = Ghost(if self.depth@ >= key@.len() { self.depth@ } else { key@.len() });
        proof {
            assert(self.full(root) =~= key@);
            assert forall|n: usize| #[trigger] self.nodes@.contains_key(n) implies self.node_ok(n) by {
                assert(o.nodes@.contains_key(n));
            }
            assert forall|n: usize, q: K| #[trigger] self.has_child(n, q) implies self.child_ok(n, q) by {
                assert(o.nodes@.contains_key(n));
            }
            assert forall|b: usize| !#[trigger] self.branches@.contains_key(b) by {
            }
            assert forall|n: usize| #[trigger] self.nodes@.contains_key(n) implies self.compressed_at(n) by {
                assert(o.nodes@.contains_key(n));
            }
            assert(self@ =~= o@.insert(key@, value));
        }
    }

    /// Replaces the value of a stored key, returning the previous one.
    fn replace_leaf(&mut self, cur: usize, key: &[K], value: V) -> (r: V)
        requires
            old(self).wf(),
            old(self).live(cur),
            old(self).full(cur) == key@,
            old(self).node(cur).leaf_of() is Some,
        ensures
            final(self).wf(),
            final(self)@ == old(self)@.insert(key@, value),
            old(self)@.contains_key(key@),
            r == old(self)@[key@],
            final(self).root == old(self).root,
            final(self).nodes@ == old(self).nodes@,
            final(self).branches@ == old(self).branches@,
            final(self).leaves@ == old(self).leaves@.insert(
                old(self).node(cur).leaf_of().unwrap(),
                final(self).leaves@[old(self).node(cur).leaf_of().unwrap()],
            ),
            final(self).leaf_value(cur) == value,
    {
        let ghost o = *old(self);
        proof {
            o.lemma_stored(cur);
            o.lemma_node(cur);
        }
        let l = self.nodes.get(&Handle::from(cur)).leaf();
        match l {
            Some(l) => {
                let r = self.leaves.replace(&l, Leaf::new(value)).unwrap();
                proof {
                    assert forall|n: usize| #[trigger] self.nodes@.contains_key(n) implies self.node_ok(n) by {
                        o.lemma_node(n);
                    }
                    assert forall|n: usize, q: K| #[trigger] self.has_child(n, q) implies self.child_ok(n, q) by {
                        assert(o.has_child(n, q));
                    }
                    assert forall|k: Seq<K>| #[trigger] self@.contains_key(k) implies self@[k] == o@.insert(key@, value)[k] by {
                        if k != key@ {
                            let x = o.key_node@[k];
                            o.lemma_node(x);
                            assert(x != cur);
                        }
                    }
                    assert forall|n: usize| #[trigger] self.nodes@.contains_key(n) implies self.compressed_at(n) by {
                        assert(o.compressed_at(n));
                    }
                    assert(self@ =~= o@.insert(key@, value));
                }
                r
            },
            None => {
                proof {
                    assert(false);
                }
                vstd::pervasive::unreached()
            },
        }
    }

    /// Puts a leaf on a node that has a branch and no leaf yet.
    fn attach_leaf(&mut self, cur: usize, key: &[K], value: V)
        requires
            old(self).shape_ok(),
            old(self).compressed_except(cur),
            old(self).live(cur),
            old(self).full(cur) == key@,
            old(self).node(cur).leaf_of() is None,
            old(self).node(cur).branch_of() is Some,
        ensures
            final(self).wf(),
            final(self)@ == old(self)@.insert(key@, value),
            final(self).root == old(self).root,
            !old(self)@.contains_key(key@),
            final(self).pre(cur) == old(self).pre(cur),
            final(self).node(cur).spec_previous() == old(self).node(cur).spec_previous(),
            final(self).node(cur).branch_of() == old(self).node(cur).branch_of(),
            final(self).node(cur).leaf_of() is Some,
            !old(self).leaves@.contains_key(final(self).node(cur).leaf_of().unwrap()),
            final(self).leaf_value(cur) == value,
            final(self).branches@ == old(self).branches@,
            final(self).pos@ == old(self).pos@,
            forall|n: usize| n != cur ==> #[trigger] final(self).nodes@[n] == old(self).nodes@[n],
    {
        let ghost o = *old(self);
        proof {
            assert(o.full(cur).take(key@.len() as int) =~= key@.take(key@.len() as int));
            assert(o.pos@[cur].len() <= o.full(cur).len());
            o.lemma_not_stored(cur, key@, key@.len() as int);
        }
        let l = self.leaves.insert(Leaf::new(value));
        let node = self.nodes.replace(&Handle::from(cur), Node::empty());
        let (previous, prefix, data) = node.into_parts();
        let branch = data.branch();
        self.nodes.replace(&Handle::from(cur), Node::from(previous, prefix, DataHandle::from_parts(Some(l.leak()), branch)));
        self.leaf_owner = Ghost(self.leaf_owner@.insert(l.spec_index(), cur));
        self.key_node = Ghost(self.key_node@.insert(key@, cur));
        proof {
            assert forall|n: usize| #[trigger] self.nodes@.contains_key(n) implies self.node_ok(n) by {
                o.lemma_node(n);
                assert(self.full(n) == o.full(n));
                if n != self.root {
                    o.lemma_parent(n);
                    let par = self.node(n).spec_previous();
                    assert(o.has_child(par, o.pos@[n].last()));
                    assert(self.full(par) == o.full(par));
                }
            }
            assert forall|n: usize, q: K| #[trigger] self.has_child(n, q) implies self.child_ok(n, q) by {
                assert(o.has_child(n, q));
                assert(o.child_ok(n, q));
            }
            assert forall|n: usize| #[trigger] self.nodes@.contains_key(n) implies self.compressed_at(n) by {
                if n != cur {
                    assert(o.compressed_at(n));
                }
            }
            assert forall|k: Seq<K>| #[trigger] self@.contains_key(k) implies self@[k] == o@.insert(key@, value)[k] by {
                if k != key@ {
                    o.lemma_key(k);
                }
            }
            assert(self@ =~= o@.insert(key@, value));
        }
    }

    /// Splits the edge of `cur` at position `at` of its full key: `cur`
    /// keeps the pieces before `at` and gets a new branch whose only child is
    /// a new node `c`, which takes the pieces after `at` and `cur`'s data;
    /// `cur`'s former children now hang below `c`.
    #[verifier::rlimit(100)]
    fn split(&mut self, cur: usize, i: usize, at: usize) -> (c: usize)
        requires
            old(self).wf(),
            old(self).live(cur),
            i == old(self).pos@[cur].len(),
            i <= at < old(self).full(cur).len(),
        ensures
            final(self).shape_ok(),
            final(self).compressed_except(cur),
            final(self)@ == old(self)@,
            !old(self).live(c),
            final(self).live(c),
            final(self).live(cur),
            final(self).pos@[cur] == old(self).pos@[cur],
            final(self).pre(cur) == old(self).pre(cur).take(at - i),
            final(self).full(cur) == old(self).full(cur).take(at as int),
            final(self).node(cur).spec_previous() == old(self).node(cur).spec_previous(),
            final(self).node(cur).leaf_of() is None,
            final(self).node(cur).branch_of() is Some,
            !old(self).branches@.contains_key(final(self).node(cur).branch_of().unwrap()),
            final(self).bview(cur) == map![old(self).full(cur)[at as int] => c],
            final(self).bview_size(cur) == 1,
            final(self).pre(c) == old(self).pre(cur).skip(at - i + 1),
            final(self).node(c).spec_previous() == cur,
            final(self).node(c).leaf_of() == old(self).node(cur).leaf_of(),
            final(self).node(c).branch_of() == old(self).node(cur).branch_of(),
            final(self).root == old(self).root,
            final(self).leaves@ == old(self).leaves@,
    {
        let ghost o = *old(self);
        proof {
            o.lemma_node(cur);
        }
        let node = self.nodes.replace(&Handle::from(cur), Node::empty());
        let (previous, prefix, data) = node.into_parts();
        let j = at - i;
        let plen = prefix.len();
        proof {
            assert(prefix@ == o.pre(cur));
            assert(j < prefix@.len());
        }
        let head = copy_range(prefix.as_slice(), 0, j);
        let sp = prefix[j];
        let rest = copy_range(prefix.as_slice(), j + 1, plen);
        let kids: Vec<usize> = match data.branch() {
            Some(cb) => self.branches.get(&cb).values(),
            None => Vec::new(),
        };
        proof {
            if o.node(cur).branch_of() is Some {
                let cbr = o.branches@[o.node(cur).branch_of().unwrap()];
                cbr.lemma_size();
                assert forall|m: int| 0 <= m < kids@.len() implies {
                    let g = #[trigger] kids@[m];
                    &&& o.live(g)
                    &&& g != cur
                    &&& o.node(g).spec_previous() == cur
                } by {
                    let q = cbr.piece_at(m);
                    assert(o.has_child(cur, q));
                    o.lemma_child(cur, q);
                    assert(o.pos@[kids@[m]].len() == o.full(cur).len() + 1);
                }
            }
        }
        let c = self.nodes.insert(Node::from(cur, rest, data)).index();
        proof {
            assert(!o.live(c));
        }
        let ghost mid = *self;
        let mut t: usize = 0;
        while t < kids.len()
            invariant
                t <= kids@.len(),
                self.nodes.wf(),
                !o.live(c),
                self.branches == mid.branches,
                self.leaves == mid.leaves,
                self.root == mid.root,
                self.pos == mid.pos,
                self.key_node == mid.key_node,
                self.leaf_owner == mid.leaf_owner,
                self.branch_owner == mid.branch_owner,
                self.depth == mid.depth,
                self.nodes@[c] == mid.nodes@[c],
                self.nodes@[cur] == mid.nodes@[cur],
                forall|x: usize| #[trigger] self.nodes@.contains_key(x) == (o.live(x) || x == c),
                forall|m: int| 0 <= m < kids@.len() ==> {
                    let g = #[trigger] kids@[m];
                    &&& o.live(g)
                    &&& g != cur
                    &&& o.node(g).spec_previous() == cur
                },
                forall|x: usize|
                    o.live(x) && x != cur ==> {
                        &&& #[trigger] self.pre(x) == o.pre(x)
                        &&& self.node(x).leaf_of() == o.node(x).leaf_of()
                        &&& self.node(x).branch_of() == o.node(x).branch_of()
                        &&& self.node(x).spec_previous() == (if kids@.take(t as int).contains(x) {
                            c
                        } else {
                            o.node(x).spec_previous()
                        })
                    },
            decreases kids@.len() - t,
        {
            let g = kids[t];
            let ghost before = *self;
            proof {
                assert(before.pre(g) == o.pre(g));
            }
            let gn = self.nodes.replace(&Handle::from(g), Node::empty());
            let (_, gp, gd) = gn.into_parts();
            self.nodes.replace(&Handle::from(g), Node::from(c, gp, gd));
            t += 1;
            proof {
                assert forall|x: usize| o.live(x) && x != cur implies {
                    &&& #[trigger] self.pre(x) == o.pre(x)
                    &&& self.node(x).leaf_of() == o.node(x).leaf_of()
                    &&& self.node(x).branch_of() == o.node(x).branch_of()
                    &&& self.node(x).spec_previous() == (if kids@.take(t as int).contains(x) {
                        c
                    } else {
                        o.node(x).spec_previous()
                    })
                } by {
                    assert(kids@.take(t as int)[t - 1] == g);
                    assert(kids@.take(t as int).contains(g));
                    assert(before.pre(x) == o.pre(x));
                    if x != g {
                        assert(self.nodes@[x] == before.nodes@[x]);
                        if kids@.take(t as int).contains(x) {
                            let m = choose|m: int| 0 <= m < t && #[trigger] kids@.take(t as int)[m] == x;
                            assert(kids@.take(t - 1)[m] == x);
                        }
                        if kids@.take(t - 1).contains(x) {
                            let m = choose|m: int| 0 <= m < t - 1 && #[trigger] kids@.take(t - 1)[m] == x;
                            assert(kids@.take(t as int)[m] == x);
                        }
                    }
                }
            }
        }
        let ghost after_loop = *self;
        let mut br = B::new();
        br.insert(sp, c);
        proof {
            br.lemma_size();
        }
        let b = self.branches.insert(br);
        self.nodes.replace(&Handle::from(cur), Node::from(previous, head, DataHandle::Branch(b.leak())));
        let ghost cl = o.node(cur).leaf_of();
        let ghost cb = o.node(cur).branch_of();
        let ghost bi = b.spec_index();
        self.pos = Ghost(self.pos@.insert(c, o.full(cur).take(at + 1)));
        self.leaf_owner = Ghost(if cl is Some { self.leaf_owner@.insert(cl->Some_0, c) } else { self.leaf_owner@ });
        self.branch_owner = Ghost(
            if cb is Some {
                self.branch_owner@.insert(cb->Some_0, c).insert(bi, cur)
            } else {
                self.branch_owner@.insert(bi, cur)
            },
        );
        self.key_node = Ghost(if cl is Some { self.key_node@.insert(o.full(cur), c) } else { self.key_node@ });
        proof {
            assert(kids@.take(kids@.len() as int) =~= kids@);
            assert forall|x: usize| o.live(x) && x != cur implies (#[trigger] kids@.contains(x)) == (
            o.node(x).spec_previous() == cur && x != o.root) by {
                if kids@.contains(x) {
                    let m = choose|m: int| 0 <= m < kids@.len() && kids@[m] == x;
                    let cbr = o.branches@[o.node(cur).branch_of().unwrap()];
                    cbr.lemma_size();
                    let q = cbr.piece_at(m);
                    assert(o.has_child(cur, q));
                    o.lemma_child(cur, q);
                }
                if o.node(x).spec_previous() == cur && x != o.root {
                    o.lemma_node(x);
                    o.lemma_parent(x);
                    let q = o.pos@[x].last();
                    let cbr = o.branches@[o.node(cur).branch_of().unwrap()];
                    cbr.lemma_size();
                    let m = choose|m: int| 0 <= m < cbr.size() && cbr.piece_at(m) == q;
                    assert(kids@[m] == x);
                }
            }
            assert forall|x: usize| o.live(x) && x != cur implies {
                &&& #[trigger] self.pre(x) == o.pre(x)
                &&& self.node(x).leaf_of() == o.node(x).leaf_of()
                &&& self.node(x).branch_of() == o.node(x).branch_of()
                &&& self.node(x).spec_previous() == (if o.node(x).spec_previous() == cur && x != o.root {
                    c
                } else {
                    o.node(x).spec_previous()
                })
            } by {
                assert(after_loop.pre(x) == o.pre(x));
                assert(self.nodes@[x] == after_loop.nodes@[x]);
            }
            assert(self.pre(cur) =~= o.pre(cur).take(j as int));
            assert(self.pre(c) =~= o.pre(cur).skip(j + 1));
            assert(self.nodes@[c] == mid.nodes@[c]);
            assert(self.branches@[bi].children() =~= map![o.pre(cur)[j as int] => c]);
            assert(o.full(cur)[at as int] == o.pre(cur)[j as int]);
            assert(sp == o.pre(cur)[j as int]);
            assert(self.nodes@.dom() =~= o.nodes@.dom().insert(c));
            assert(self.branches@.dom() =~= o.branches@.dom().insert(bi));
            lemma_split_into(o, *self, cur, c, i as int, j as int, bi);
        }
        c
    }

    /// Merges the single child of node `n`, which has no leaf, into `n`: `n`
    /// takes its own prefix, the piece that led to the child and the child's
    /// prefix, and the child's data; the child's children now hang below
    /// `n`, and the child node and `n`'s branch are deleted.
    fn contract(&mut self, n: usize) -> (r: (K, usize))
        requires
            old(self).shape_ok(),
            old(self).compressed_except(n),
            old(self).live(n),
            old(self).node(n).leaf_of() is None,
            old(self).node(n).branch_of() is Some,
            old(self).bview_size(n) == 1,
        ensures
            final(self).wf(),
            final(self)@ == old(self)@,
            old(self).bview(n) == map![r.0 => r.1],
            !final(self).live(r.1),
            !final(self).branches@.contains_key(old(self).node(n).branch_of().unwrap()),
            final(self).live(n),
            final(self).pre(n) == old(self).pre(n).push(r.0) + old(self).pre(r.1),
            final(self).node(n).leaf_of() == old(self).node(r.1).leaf_of(),
            final(self).node(n).branch_of() == old(self).node(r.1).branch_of(),
            final(self).node(n).spec_previous() == old(self).node(n).spec_previous(),
            final(self).root == old(self).root,
    {
        let ghost o = *old(self);
        proof {
            o.lemma_node(n);
            o.branches@[o.node(n).branch_of().unwrap()].lemma_size();
        }
        let bh = match self.nodes.get(&Handle::from(n)).branch() {
            Some(b) => b,
            None => {
                proof {
                    assert(false);
                }
                vstd::pervasive::unreached()
            },
        };
        let ghost b = bh.spec_index();
        let br = self.branches.remove(bh);
        let (p, c) = br.single();
        proof {
            assert(o.has_child(n, p));
            o.lemma_child(n, p);
            o.lemma_node(c);
            assert(c != n) by {
                assert(o.pos@[c].len() == o.full(n).len() + 1);
            }
        }
        let child = self.nodes.remove(Handle::from(c));
        let (_, child_prefix, child_data) = child.into_parts();
        let kids: Vec<usize> = match child_data.branch() {
            Some(cb) => self.branches.get(&cb).values(),
            None => Vec::new(),
        };
        proof {
            if o.node(c).branch_of() is Some {
                let cbr = o.branches@[o.node(c).branch_of().unwrap()];
                cbr.lemma_size();
                assert forall|j: int| 0 <= j < kids@.len() implies {
                    let g = #[trigger] kids@[j];
                    &&& o.live(g)
                    &&& g != c
                    &&& g != n
                    &&& o.node(g).spec_previous() == c
                } by {
                    let q = cbr.piece_at(j);
                    assert(o.has_child(c, q));
                    o.lemma_child(c, q);
                    assert(o.pos@[kids@[j]].len() == o.full(c).len() + 1);
                }
            }
        }
        let ghost mid = *self;
        let mut t: usize = 0;
        while t < kids.len()
            invariant
                t <= kids@.len(),
                self.nodes.wf(),
                self.branches == mid.branches,
                self.leaves == mid.leaves,
                self.root == mid.root,
                self.pos == mid.pos,
                self.key_node == mid.key_node,
                self.leaf_owner == mid.leaf_owner,
                self.branch_owner == mid.branch_owner,
                self.depth == mid.depth,
                forall|x: usize| #[trigger] self.nodes@.contains_key(x) == (o.live(x) && x != c),
                forall|j: int| 0 <= j < kids@.len() ==> {
                    let g = #[trigger] kids@[j];
                    &&& o.live(g)
                    &&& g != c
                    &&& g != n
                    &&& o.node(g).spec_previous() == c
                },
                forall|x: usize|
                    o.live(x) && x != c ==> {
                        &&& #[trigger] self.pre(x) == o.pre(x)
                        &&& self.node(x).leaf_of() == o.node(x).leaf_of()
                        &&& self.node(x).branch_of() == o.node(x).branch_of()
                        &&& self.node(x).spec_previous() == (if kids@.take(t as int).contains(x) {
                            n
                        } else {
                            o.node(x).spec_previous()
                        })
                    },
            decreases kids@.len() - t,
        {
            let g = kids[t];
            let ghost before = *self;
            proof {
                assert(before.pre(g) == o.pre(g));
            }
            let gn = self.nodes.replace(&Handle::from(g), Node::empty());
            let (_, gp, gd) = gn.into_parts();
            self.nodes.replace(&Handle::from(g), Node::from(n, gp, gd));
            t += 1;
            proof {
                assert forall|x: usize| o.live(x) && x != c implies {
                    &&& #[trigger] self.pre(x) == o.pre(x)
                    &&& self.node(x).leaf_of() == o.node(x).leaf_of()
                    &&& self.node(x).branch_of() == o.node(x).branch_of()
                    &&& self.node(x).spec_previous() == (if kids@.take(t as int).contains(x) {
                        n
                    } else {
                        o.node(x).spec_previous()
                    })
                } by {
                    assert(kids@.take(t as int)[t - 1] == g);
                    assert(kids@.take(t as int).contains(g));
                    assert(before.pre(x) == o.pre(x));
                    if x != g {
                        assert(self.nodes@[x] == before.nodes@[x]);
                        if kids@.take(t as int).contains(x) {
                            let j = choose|j: int| 0 <= j < t && #[trigger] kids@.take(t as int)[j] == x;
                            assert(kids@.take(t - 1)[j] == x);
                        }
                        if kids@.take(t - 1).contains(x) {
                            let j = choose|j: int| 0 <= j < t - 1 && #[trigger] kids@.take(t - 1)[j] == x;
                            assert(kids@.take(t as int)[j] == x);
                        }
                    }
                }
            }
        }
        let ghost after_loop = *self;
        proof {
            assert(after_loop.pre(n) == o.pre(n));
            assert(child_prefix@ == o.pre(c));
        }
        let nn = self.nodes.replace(&Handle::from(n), Node::empty());
        let (previous, prefix, _) = nn.into_parts();
        let merged = join(prefix, p, &child_prefix);
        self.nodes.replace(&Handle::from(n), Node::from(previous, merged, child_data));
        let ghost cl = o.node(c).leaf_of();
        let ghost cb = o.node(c).branch_of();
        self.leaf_owner = Ghost(if cl is Some { self.leaf_owner@.insert(cl->Some_0, n) } else { self.leaf_owner@ });
        self.branch_owner = Ghost(
            if cb is Some {
                self.branch_owner@.remove(b).insert(cb->Some_0, n)
            } else {
                self.branch_owner@.remove(b)
            },
        );
        self.key_node = Ghost(if cl is Some { self.key_node@.insert(o.full(c), n) } else { self.key_node@ });
        proof {
            assert(kids@.take(kids@.len() as int) =~= kids@);
            assert forall|x: usize| o.live(x) && x != c && x != n implies (#[trigger] kids@.contains(x)) == (
            o.node(x).spec_previous() == c && x != o.root) by {
                if kids@.contains(x) {
                    let j = choose|j: int| 0 <= j < kids@.len() && kids@[j] == x;
                    let cbr = o.branches@[o.node(c).branch_of().unwrap()];
                    cbr.lemma_size();
                    let q = cbr.piece_at(j);
                    assert(o.has_child(c, q));
                    o.lemma_child(c, q);
                }
                if o.node(x).spec_previous() == c && x != o.root {
                    o.lemma_node(x);
                    o.lemma_parent(x);
                    let q = o.pos@[x].last();
                    let cbr = o.branches@[o.node(c).branch_of().unwrap()];
                    cbr.lemma_size();
                    let j = choose|j: int| 0 <= j < cbr.size() && cbr.piece_at(j) == q;
                    assert(kids@[j] == x);
                }
            }
            assert forall|x: usize| o.live(x) && x != c && x != n implies {
                &&& #[trigger] self.pre(x) == o.pre(x)
                &&& self.node(x).leaf_of() == o.node(x).leaf_of()
                &&& self.node(x).branch_of() == o.node(x).branch_of()
                &&& self.node(x).spec_previous() == (if o.node(x).spec_previous() == c && x != o.root {
                    n
                } else {
                    o.node(x).spec_previous()
                })
            } by {
                assert(after_loop.pre(x) == o.pre(x));
                assert(self.nodes@[x] == after_loop.nodes@[x]);
                assert(kids@.contains(x) == (o.node(x).spec_previous() == c && x != o.root));
            }
            assert(self.pre(n) =~= o.pre(n).push(p) + o.pre(c));
            assert(self.nodes@.dom() =~= o.nodes@.dom().remove(c));
            assert(self.branches@.dom() =~= o.branches@.dom().remove(b));
            lemma_contract_into(o, *self, n, c, p, b);
        }
        (p, c)
    }

    /// Deletes the leaf-only node `cur` together with its entry in its
    /// parent's branch, and the parent's branch itself when that empties.
    /// Returns the value of the leaf and the parent.
    fn unlink(&mut self, cur: usize, i: usize, key: &[K]) -> (r: (V, usize))
        requires
            old(self).wf(),
            old(self).live(cur),
            cur != old(self).root,
            old(self).node(cur).leaf_of() is Some,
            old(self).node(cur).branch_of() is None,
            old(self).full(cur) == key@,
            1 <= i <= key@.len(),
            old(self).pos@[cur] == key@.take(i as int),
        ensures
            final(self).shape_ok(),
            final(self).compressed_except(r.1),
            final(self).live(r.1),
            r.1 == old(self).node(cur).spec_previous(),
            final(self).pos@[r.1] == old(self).pos@[r.1],
            final(self).root == old(self).root,
            old(self)@.contains_key(key@),
            r.0 == old(self)@[key@],
            final(self)@ == old(self)@.remove(key@),
            !final(self).live(cur),
            !final(self).leaves@.contains_key(old(self).node(cur).leaf_of().unwrap()),
            final(self).pre(r.1) == old(self).pre(r.1),
            final(self).node(r.1).spec_previous() == old(self).node(r.1).spec_previous(),
            final(self).node(r.1).leaf_of() == old(self).node(r.1).leaf_of(),
            old(self).node(r.1).branch_of() is Some,
            old(self).bview(r.1).contains_key(key@[i - 1]),
            old(self).bview_size(r.1) == 1 ==> final(self).node(r.1).branch_of() is None
                && !final(self).branches@.contains_key(old(self).node(r.1).branch_of().unwrap()),
            old(self).bview_size(r.1) != 1 ==> final(self).node(r.1).branch_of() == old(self).node(r.1).branch_of()
                && final(self).bview(r.1) == old(self).bview(r.1).remove(key@[i - 1]),
    {
        let ghost o = *old(self);
        proof {
            o.lemma_node(cur);
            o.lemma_parent(cur);
            o.lemma_node(o.node(cur).spec_previous());
            o.lemma_stored(cur);
            assert(o.pos@[cur].last() == key@[i - 1]);
        }
        let node = self.nodes.remove(Handle::from(cur));
        let (par, _, data) = node.into_parts();
        let l = match data.leaf() {
            Some(l) => l,
            None => {
                proof {
                    assert(false);
                }
                vstd::pervasive::unreached()
            },
        };
        let ghost li = l.spec_index();
        let value = self.leaves.remove(l).unwrap();
        let piece = key[i - 1];
        let (pleaf, pbranch) = self.nodes.get(&Handle::from(par)).leaf_branch();
        let pb = match pbranch {
            Some(pb) => pb,
            None => {
                proof {
                    assert(false);
                }
                vstd::pervasive::unreached()
            },
        };
        let ghost pbi = pb.spec_index();
        let mut pbr = self.branches.replace(&pb, B::new());
        pbr.remove(&piece);
        let dropped = pbr.len() == 0;
        if dropped {
            self.branches.remove(pb);
            let pn = self.nodes.replace(&Handle::from(par), Node::empty());
            let (pprev, ppre, _) = pn.into_parts();
            self.nodes.replace(&Handle::from(par), Node::from(pprev, ppre, DataHandle::from_parts(pleaf, None)));
            self.branch_owner = Ghost(self.branch_owner@.remove(pbi));
        } else {
            self.branches.replace(&pb, pbr);
        }
        self.leaf_owner = Ghost(self.leaf_owner@.remove(li));
        self.key_node = Ghost(self.key_node@.remove(key@));
        proof {
            assert(self.nodes@.dom() =~= o.nodes@.dom().remove(cur));
            if dropped {
                assert(self.branches@.dom() =~= o.branches@.dom().remove(pbi));
                assert(o.compressed_at(par));
            } else {
                assert(self.branches@.dom() =~= o.branches@.dom());
            }
            lemma_unlink_ok(o, *self, cur, par, li, pbi, dropped);
        }
        (value, par)
    }

    /// Takes the leaf off a node that also has a branch.
    fn take_leaf_full(&mut self, cur: usize, key: &[K]) -> (r: V)
        requires
            old(self).wf(),
            old(self).live(cur),
            old(self).node(cur).leaf_of() is Some,
            old(self).node(cur).branch_of() is Some,
            old(self).full(cur) == key@,
        ensures
            final(self).shape_ok(),
            final(self).compressed_except(cur),
            final(self).live(cur),
            final(self).node(cur).leaf_of() is None,
            final(self).node(cur).branch_of() == old(self).node(cur).branch_of(),
            final(self).branches@ == old(self).branches@,
            final(self).pos@ == old(self).pos@,
            final(self).root == old(self).root,
            old(self)@.contains_key(key@),
            r == old(self)@[key@],
            final(self)@ == old(self)@.remove(key@),
            final(self).pre(cur) == old(self).pre(cur),
            final(self).node(cur).spec_previous() == old(self).node(cur).spec_previous(),
            !final(self).leaves@.contains_key(old(self).node(cur).leaf_of().unwrap()),
    {
        let ghost o = *old(self);
        proof {
            o.lemma_node(cur);
            o.lemma_stored(cur);
        }
        let node = self.nodes.replace(&Handle::from(cur), Node::empty());
        let (previous, prefix, data) = node.into_parts();
        let (leaf, branch) = data.leaf_branch();
        self.nodes.replace(&Handle::from(cur), Node::from(previous, prefix, DataHandle::from_parts(None, branch)));
        let l = match leaf {
            Some(l) => l,
            None => {
                proof {
                    assert(false);
                }
                vstd::pervasive::unreached()
            },
        };
        let ghost li = l.spec_index();
        let r = self.leaves.remove(l).unwrap();
        self.leaf_owner = Ghost(self.leaf_owner@.remove(li));
        self.key_node = Ghost(self.key_node@.remove(key@));
        proof {
            assert forall|n: usize| #[trigger] self.nodes@.contains_key(n) implies self.node_ok(n) by {
                o.lemma_node(n);
                assert(self.full(n) == o.full(n));
                if n != self.root {
                    o.lemma_parent(n);
                    let par = self.node(n).spec_previous();
                    o.lemma_node(par);
                    assert(self.full(par) == o.full(par));
                    assert(self.parent_ok(n));
                }
                if n != cur && self.node(n).leaf_of() is Some {
                    assert(o.full(n) != key@);
                }
            }
            assert forall|n: usize, q: K| #[trigger] self.has_child(n, q) implies self.child_ok(n, q) by {
                assert(o.has_child(n, q));
                o.lemma_child(n, q);
            }
            assert forall|n: usize| self.nodes@.contains_key(n) && n != cur implies #[trigger] self.compressed_at(n) by {
                assert(o.compressed_at(n));
            }
            assert forall|m: usize| #[trigger] self.leaves@.contains_key(m) implies {
                &&& self.leaf_owner@.contains_key(m)
                &&& self.live(self.leaf_owner@[m])
                &&& self.node(self.leaf_owner@[m]).leaf_of() == Some(m)
            } by {
                assert(o.leaves@.contains_key(m));
            }
            assert forall|k: Seq<K>| #[trigger] self.key_node@.contains_key(k) implies {
                &&& self.live(self.key_node@[k])
                &&& self.node(self.key_node@[k]).leaf_of() is Some
                &&& self.full(self.key_node@[k]) == k
            } by {
                o.lemma_key(k);
            }
            assert forall|k: Seq<K>| #[trigger] self@.contains_key(k) implies self@[k] == o@.remove(key@)[k] by {
                o.lemma_key(k);
            }
            assert(self@ =~= o@.remove(key@));
        }
        r
    }

    /// Takes the leaf off a root that has no branch, leaving the trie empty.
    fn take_root_leaf(&mut self, key: &[K]) -> (r: V)
        requires
            old(self).wf(),
            old(self).node(old(self).root).leaf_of() is Some,
            old(self).node(old(self).root).branch_of() is None,
            old(self).full(old(self).root) == key@,
        ensures
            final(self).wf(),
            final(self).is_pristine(),
            final(self).root == old(self).root,
            old(self)@.contains_key(key@),
            r == old(self)@[key@],
            final(self)@ == old(self)@.remove(key@),
    {
        let ghost o = *old(self);
        let root = self.root;
        proof {
            o.lemma_node(root);
            o.lemma_stored(root);
            assert forall|n: usize| #[trigger] o.nodes@.contains_key(n) implies n == o.root by {
                if n != o.root {
                    o.lemma_root_branch(n);
                }
            }
            assert forall|k: Seq<K>| #[trigger] o.key_node@.contains_key(k) implies k == key@ by {
                o.lemma_key(k);
            }
            assert forall|m: usize| #[trigger] o.leaves@.contains_key(m) implies m == o.node(root).leaf_of().unwrap() by {
            }
            assert forall|b: usize| !#[trigger] o.branches@.contains_key(b) by {
            }
        }
        let node = self.nodes.replace(&Handle::from(root), Node::empty());
        let (_, _, data) = node.into_parts();
        let l = match data.leaf() {
            Some(l) => l,
            None => {
                proof {
                    assert(false);
                }
                vstd::pervasive::unreached()
            },
        };
        let ghost li = l.spec_index();
        let r = self.leaves.remove(l).unwrap();
        self.leaf_owner = Ghost(self.leaf_owner@.remove(li));
        self.key_node = Ghost(self.key_node@.remove(key@));
        proof {
            assert(self.nodes@.dom() =~= set![root]);
            assert(self.leaves@.dom() =~= Set::<usize>::empty());
            assert(self.branches@.dom() =~= Set::<usize>::empty());
            assert(self.key_node@ =~= Map::<Seq<K>, usize>::empty());
            assert forall|n: usize| #[trigger] self.nodes@.contains_key(n) implies self.node_ok(n) by {
            }
            assert forall|n: usize| #[trigger] self.nodes@.contains_key(n) implies self.compressed_at(n) by {
            }
            assert forall|n: usize, q: K| #[trigger] self.has_child(n, q) implies self.child_ok(n, q) by {
            }
            assert(self@ =~= o@.remove(key@));
        }
        r
    }

    /// Removes `key`, returning its value. Emptied nodes and branches are
    /// deleted, and a node left with no leaf and a single child is merged
    /// into that child, so that the trie keeps the shape that inserting
    /// the remaining keys alone would give it.
    pub fn remove(&mut self, key: &[K]) -> (r: Option<V>)
        requires
            old(self).wf(),
        ensures
            final(self).wf(),
            final(self)@ == old(self)@.remove(key@),
            r == lookup(old(self)@, key@),
            !old(self)@.contains_key(key@) ==> *final(self) == *old(self),
            final(self).root_index() == old(self).root_index(),
    {
        let ghost o = *old(self);
        let klen = key.len();
        let mut cur: usize = self.root;
        let mut i: usize = 0;
        loop
            invariant
                self.wf(),
                *self == o,
                o == *old(self),
                self.live(cur),
                klen == key@.len(),
                i <= key@.len(),
                self.pos@[cur] == key@.take(i as int),
            decreases key@.len() - i,
        {
            let node = self.nodes.get(&Handle::from(cur));
            let j = match_len(node.prefix(), key, i);
            let at = i + j;
            proof {
                self.lemma_node(cur);
                assert forall|t: int| 0 <= t < at implies #[trigger] self.full(cur)[t] == key@[t] by {
                    if t >= i {
                        assert(node.spec_prefix()[t - i] == key@[i + (t - i)]);
                    }
                }
                assert(self.full(cur).take(at as int) =~= key@.take(at as int));
                assert(self.covers(cur, key@, at as int));
            }
            if j < node.prefix().len() {
                proof {
                    self.lemma_not_stored(cur, key@, at as int);
                    assert(self@.remove(key@) =~= self@);
                }
                return None;
            }
            if at == klen {
                proof {
                    assert(self.full(cur) =~= key@);
                }
                let (leaf, branch) = node.leaf_branch();
                if leaf.is_none() {
                    proof {
                        self.lemma_not_stored(cur, key@, at as int);
                        assert(self@.remove(key@) =~= self@);
                    }
                    return None;
                }
                match branch {
                    Some(b) => {
                        let single = self.branches.get(&b).len() == 1;
                        let value = self.take_leaf_full(cur, key);
                        if single {
                            self.contract(cur);
                        } else {
                            proof {
                                assert forall|n: usize| self.nodes@.contains_key(n) implies #[trigger] self.compressed_at(n) by {
                                    if n == cur {
                                        o.lemma_node(cur);
                                    }
                                }
                            }
                        }
                        return Some(value);
                    },
                    None => {
                        if cur == self.root {
                            let value = self.take_root_leaf(key);
                            return Some(value);
                        }
                        let (value, par) = self.unlink(cur, i, key);
                        proof {
                            self.lemma_node(par);
                        }
                        let pnode = self.nodes.get(&Handle::from(par));
                        let lonely = match pnode.branch() {
                            Some(pb) => pnode.leaf().is_none() && self.branches.get(&pb).len() == 1,
                            None => false,
                        };
                        if lonely {
                            self.contract(par);
                        } else {
                            proof {
                                assert forall|n: usize| self.nodes@.contains_key(n) implies #[trigger] self.compressed_at(n) by {
                                    if n == par {
                                        self.lemma_node(par);
                                    }
                                }
                            }
                        }
                        return Some(value);
                    },
                }
            }
            let child = match node.branch() {
                Some(b) => self.branches.get(&b).get(&key[at]),
                None => None,
            };
            match child {
                Some(c) => {
                    proof {
                        assert(self.has_child(cur, key@[at as int]));
                        assert(self.child_ok(cur, key@[at as int]));
                        assert(self.full(cur) =~= key@.take(at as int));
                        assert(self.pos@[c] =~= key@.take(at + 1));
                    }
                    cur = c;
                    i = at + 1;
                },
                None => {
                    proof {
                        self.lemma_not_stored(cur, key@, at as int);
                        assert(self@.remove(key@) =~= self@);
                    }
                    return None;
                },
            }
        }
    }

    /// The slot of the root node, which the trie keeps for its whole life.
    pub closed spec fn root_index(&self) -> usize {
        self.root
    }

    /// The root node.
    pub closed spec fn spec_root_node(&self) -> Node<K, V, B> {
        self.nodes@[self.root]
    }

    /// The root node.
    pub fn root_node(&self) -> (r: &Node<K, V, B>)
        requires
            self.wf(),
        ensures
            *r == self.spec_root_node(),
    {
        self.nodes.get(&Handle::from(self.root))
    }

    /// The trie holds nothing but its root node, which carries the leaf of
    /// `k` directly under the prefix `k`.
    pub closed spec fn is_single_leaf(&self, k: Seq<K>) -> bool {
        &&& self.nodes@.dom() == set![self.root]
        &&& self.node(self.root).leaf_of() is Some
        &&& self.node(self.root).branch_of() is None
        &&& self.pre(self.root) == k
        &&& self.branches@.dom() == Set::<usize>::empty()
    }

    /// The prefix of the root node.
    pub closed spec fn root_prefix(&self) -> Seq<K> {
        self.pre(self.root)
    }

    /// What the root node shows of a new trie and of a single-key trie.
    pub proof fn lemma_root_node(&self)
        requires
            self.wf(),
        ensures
            self.spec_root_node().spec_prefix() == self.root_prefix(),
            self.is_pristine() ==> self.spec_root_node().spec_is_empty() && self.root_prefix() == Seq::<K>::empty(),
            forall|k: Seq<K>| #[trigger] self.is_single_leaf(k) ==> {
                &&& self.spec_root_node().leaf_of() is Some
                &&& self.spec_root_node().branch_of() is None
                &&& self.root_prefix() == k
            },
    {
    }

    /// Stores `key`, which ends strictly inside the edge of `cur`: the edge
    /// is split there, `cur` keeps the pieces before the split and takes the
    /// leaf, and its one-entry branch leads to a new node `c` holding the
    /// rest of the edge and `cur`'s former data.
    fn insert_inside(&mut self, cur: usize, i: usize, key: &[K], value: V) -> (c: usize)
        requires
            old(self).wf(),
            old(self).live(cur),
            i == old(self).pos@[cur].len(),
            i <= key@.len() < old(self).full(cur).len(),
            old(self).full(cur).take(key@.len() as int) == key@,
        ensures
            final(self).wf(),
            final(self)@ == old(self)@.insert(key@, value),
            !old(self)@.contains_key(key@),
            !old(self).live(c),
            final(self).pos@[cur] == old(self).pos@[cur],
            final(self).pre(cur) == old(self).pre(cur).take(key@.len() - i),
            final(self).node(cur).spec_previous() == old(self).node(cur).spec_previous(),
            final(self).node(cur).leaf_of() is Some,
            !old(self).leaves@.contains_key(final(self).node(cur).leaf_of().unwrap()),
            final(self).leaf_value(cur) == value,
            final(self).node(cur).branch_of() is Some,
            !old(self).branches@.contains_key(final(self).node(cur).branch_of().unwrap()),
            final(self).bview(cur) == map![old(self).pre(cur)[key@.len() - i] => c],
            final(self).pre(c) == old(self).pre(cur).skip(key@.len() - i + 1),
            final(self).node(c).spec_previous() == cur,
            final(self).node(c).leaf_of() == old(self).node(cur).leaf_of(),
            final(self).node(c).branch_of() == old(self).node(cur).branch_of(),
            final(self).root == old(self).root,
    {
        let at = key.len();
        proof {
            assert(old(self).full(cur)[at as int] == old(self).pre(cur)[at - i]);
            assert(key@.take(at as int) =~= key@);
        }
        let c = self.split(cur, i, at);
        self.attach_leaf(cur, key, value);
        c
    }

    /// Stores `value` under `key`, returning the value it replaces.
    pub fn insert(&mut self, key: &[K], value: V) -> (r: Option<V>)
        requires
            old(self).wf(),
        ensures
            final(self).wf(),
            final(self)@ == old(self)@.insert(key@, value),
            r == lookup(old(self)@, key@),
            final(self).root_index() == old(self).root_index(),
    {
        let ghost o = *old(self);
        let klen = key.len();
        if self.nodes.get(&Handle::from(self.root)).is_empty() {
            self.fill_root(key, value);
            proof {
                assert(!o@.contains_key(key@)) by {
                    if o.key_node@.contains_key(key@) {
                        let x = o.key_node@[key@];
                        if x != o.root {
                            o.lemma_root_branch(x);
                        }
                    }
                }
            }
            return None;
        }
        let mut cur: usize = self.root;
        let mut i: usize = 0;
        loop
            invariant
                self.wf(),
                *self == o,
                o == *old(self),
                self.live(cur),
                klen == key@.len(),
                i <= key@.len(),
                self.pos@[cur] == key@.take(i as int),
                !self.node(cur).spec_is_empty(),
            decreases key@.len() - i,
        {
            let node = self.nodes.get(&Handle::from(cur));
            let j = match_len(node.prefix(), key, i);
            let at = i + j;
            proof {
                self.lemma_node(cur);
            }
            let plen = node.prefix().len();
            let has_leaf = node.leaf().is_some();
            proof {
                assert forall|t: int| 0 <= t < at implies #[trigger] self.full(cur)[t] == key@[t] by {
                    if t >= i {
                        assert(node.spec_prefix()[t - i] == key@[i + (t - i)]);
                    }
                }
                assert(self.full(cur).take(at as int) =~= key@.take(at as int));
                assert(self.covers(cur, key@, at as int));
            }
            if j < plen {
                proof {
                    self.lemma_not_stored(cur, key@, at as int);
                    assert(!o@.contains_key(key@));
                    assert(self.full(cur)[at as int] == node.spec_prefix()[j as int]);
                }
                if at == klen {
                    proof {
                        assert(key@.take(at as int) =~= key@);
                    }
                    self.insert_inside(cur, i, key, value);
                } else {
                    self.split(cur, i, at);
                    self.attach_child(cur, at, key, value);
                }
                return None;
            }
            if at == klen {
                proof {
                    assert(self.full(cur) =~= key@);
                }
                if has_leaf {
                    let r = self.replace_leaf(cur, key, value);
                    return Some(r);
                } else {
                    self.attach_leaf(cur, key, value);
                    return None;
                }
            }
            let child = match node.branch() {
                Some(b) => self.branches.get(&b).get(&key[at]),
                None => None,
            };
            match child {
                Some(c) => {
                    proof {
                        assert(self.has_child(cur, key@[at as int]));
                        assert(self.child_ok(cur, key@[at as int]));
                        assert(self.full(cur) =~= key@.take(at as int));
                        assert(self.pos@[c] =~= key@.take(at + 1));
                        self.lemma_node(c);
                    }
                    cur = c;
                    i = at + 1;
                },
                None => {
                    proof {
                        assert(self.full(cur) =~= key@.take(at as int));
                    }
                    self.attach_child(cur, at, key, value);
                    return None;
                },
            }
        }
    }
}

/// The state after merging the single child `c` of node `n`, which has no
/// leaf, into `n` is well formed and stores the same keys.
#[verifier::rlimit(100)]
proof fn lemma_contract_into<K: Piece, V, B: Branch<K>>(o: Trie<K, V, B>, s: Trie<K, V, B>, n: usize, c: usize, p: K, b: usize)
    requires
        o.shape_ok(),
        o.compressed_except(n),
        o.live(n),
        o.node(n).leaf_of() is None,
        o.node(n).branch_of() == Some(b),
        o.branches@[b].children() == map![p => c],
        s.nodes.wf(),
        s.branches.wf(),
        s.leaves.wf(),
        s.nodes@.dom() == o.nodes@.dom().remove(c),
        forall|x: usize|
            o.live(x) && x != c && x != n ==> {
                &&& #[trigger] s.pre(x) == o.pre(x)
                &&& s.node(x).leaf_of() == o.node(x).leaf_of()
                &&& s.node(x).branch_of() == o.node(x).branch_of()
                &&& s.node(x).spec_previous() == (if o.node(x).spec_previous() == c && x != o.root {
                    n
                } else {
                    o.node(x).spec_previous()
                })
            },
        s.node(n).spec_previous() == o.node(n).spec_previous(),
        s.pre(n) == o.pre(n).push(p) + o.pre(c),
        s.node(n).leaf_of() == o.node(c).leaf_of(),
        s.node(n).branch_of() == o.node(c).branch_of(),
        s.branches@.dom() == o.branches@.dom().remove(b),
        forall|x: usize| x != b && o.branches@.contains_key(x) ==> #[trigger] s.branches@[x] == o.branches@[x],
        s.leaves@ == o.leaves@,
        s.leaf_owner@ == (if o.node(c).leaf_of() is Some {
            o.leaf_owner@.insert(o.node(c).leaf_of().unwrap(), n)
        } else {
            o.leaf_owner@
        }),
        s.branch_owner@ == (if o.node(c).branch_of() is Some {
            o.branch_owner@.remove(b).insert(o.node(c).branch_of().unwrap(), n)
        } else {
            o.branch_owner@.remove(b)
        }),
        s.key_node@ == (if o.node(c).leaf_of() is Some { o.key_node@.insert(o.full(c), n) } else { o.key_node@ }),
        s.pos@ == o.pos@,
        s.depth@ == o.depth@,
        s.root == o.root,
    ensures
        s.wf(),
        s@ == o@,
{
    o.lemma_node(n);
    assert(o.has_child(n, p));
    o.lemma_child(n, p);
    o.lemma_node(c);
    let par = o.node(n).spec_previous();
    if n != o.root {
        o.lemma_parent(n);
        o.lemma_node(par);
        assert(par != c) by {
            assert(o.pos@[c].len() == o.full(n).len() + 1);
        }
    }
    assert(s.full(n) =~= o.full(c));
    assert forall|x: usize| x != n && #[trigger] s.nodes@.contains_key(x) implies s.full(x) == o.full(x) by {
    }
    assert forall|x: usize| #[trigger] s.nodes@.contains_key(x) implies s.node_ok(x) by {
        o.lemma_node(x);
        if x == n {
            if n != s.root {
                assert(s.full(par) == o.full(par));
                let pb = o.node(par).branch_of().unwrap();
                assert(pb != b);
                assert(s.parent_ok(n));
            }
            if s.node(n).branch_of() is Some {
                let cb = s.node(n).branch_of().unwrap();
                assert(o.branch_owner@[cb] == c);
                assert(cb != b);
            }
            if s.node(n).leaf_of() is Some {
                assert(s.key_node@[s.full(n)] == n);
            }
        } else {
            assert(s.full(x) == o.full(x));
            if x != s.root {
                o.lemma_parent(x);
                let px = o.node(x).spec_previous();
                o.lemma_node(px);
                if px == c {
                    assert(s.parent_ok(x));
                } else {
                    assert(px != n) by {
                        if px == n {
                            assert(o.bview(n).contains_key(o.pos@[x].last()));
                        }
                    }
                    assert(s.full(px) == o.full(px));
                    let pb = o.node(px).branch_of().unwrap();
                    assert(pb != b);
                    assert(s.parent_ok(x));
                }
            }
            if s.node(x).branch_of() is Some {
                let xb = s.node(x).branch_of().unwrap();
                assert(xb != b);
                if o.node(c).branch_of() is Some {
                    assert(xb != o.node(c).branch_of().unwrap());
                }
            }
            if s.node(x).leaf_of() is Some {
                if o.node(c).leaf_of() is Some {
                    assert(o.full(x) != o.full(c));
                    assert(s.node(x).leaf_of() != o.node(c).leaf_of());
                }
            }
        }
    }
    assert forall|x: usize, q: K| #[trigger] s.has_child(x, q) implies s.child_ok(x, q) by {
        o.lemma_node(x);
        if x == n {
            assert(o.has_child(c, q));
            o.lemma_child(c, q);
            let g = o.bview(c)[q];
            assert(o.pos@[g].len() == o.full(c).len() + 1);
            assert(g != n);
        } else {
            let xb = s.node(x).branch_of().unwrap();
            assert(xb != b);
            assert(o.has_child(x, q));
            o.lemma_child(x, q);
            let y = o.bview(x)[q];
            assert(y != c);
            assert(s.full(x) == o.full(x));
        }
    }
    assert forall|x: usize| #[trigger] s.nodes@.contains_key(x) implies s.compressed_at(x) by {
        if x == n {
            assert(o.compressed_at(c));
            if s.node(n).branch_of() is Some {
                let cb = s.node(n).branch_of().unwrap();
                assert(o.branch_owner@[cb] == c);
                assert(cb != b);
            }
        } else {
            assert(o.compressed_at(x));
            o.lemma_node(x);
            if s.node(x).branch_of() is Some {
                let xb = s.node(x).branch_of().unwrap();
                assert(xb != b);
            }
        }
    }
    assert forall|l: usize| #[trigger] s.leaves@.contains_key(l) implies {
        &&& s.leaf_owner@.contains_key(l)
        &&& s.live(s.leaf_owner@[l])
        &&& s.node(s.leaf_owner@[l]).leaf_of() == Some(l)
    } by {
        assert(o.leaves@.contains_key(l));
        if o.node(c).leaf_of() != Some(l) {
            assert(o.leaf_owner@[l] != c);
            assert(o.leaf_owner@[l] != n);
        }
    }
    assert forall|x: usize| #[trigger] s.branches@.contains_key(x) implies {
        &&& s.branch_owner@.contains_key(x)
        &&& s.live(s.branch_owner@[x])
        &&& s.node(s.branch_owner@[x]).branch_of() == Some(x)
    } by {
        assert(o.branches@.contains_key(x));
        if o.node(c).branch_of() != Some(x) {
            assert(o.branch_owner@[x] != c);
            assert(o.branch_owner@[x] != n);
        }
    }
    assert forall|k: Seq<K>| #[trigger] s.key_node@.contains_key(k) implies {
        &&& s.live(s.key_node@[k])
        &&& s.node(s.key_node@[k]).leaf_of() is Some
        &&& s.full(s.key_node@[k]) == k
    } by {
        if o.key_node@.contains_key(k) {
            o.lemma_key(k);
        }
    }
    assert forall|k: Seq<K>| #[trigger] s@.contains_key(k) implies s@[k] == o@[k] by {
        o.lemma_key(k);
    }
    assert forall|k: Seq<K>| #[trigger] s@.contains_key(k) == o@.contains_key(k) by {
        if o.node(c).leaf_of() is Some && k == o.full(c) {
            assert(o.key_node@.contains_key(o.full(c)));
        }
    }
    assert(s@ =~= o@);
}

/// The state after deleting the leaf-only node `cur` and its entry in the
/// branch of its parent `par` (and that branch too, when it empties) is well
/// formed but for the compression of `par`, and no longer stores `cur`'s key.
#[verifier::rlimit(100)]
proof fn lemma_unlink_ok<K: Piece, V, B: Branch<K>>(o: Trie<K, V, B>, s: Trie<K, V, B>, cur: usize, par: usize, l: usize, pb: usize, dropped: bool)
    requires
        o.wf(),
        o.live(cur),
        cur != o.root,
        o.node(cur).leaf_of() == Some(l),
        o.node(cur).branch_of() is None,
        par == o.node(cur).spec_previous(),
        o.node(par).branch_of() == Some(pb),
        s.nodes.wf(),
        s.branches.wf(),
        s.leaves.wf(),
        s.nodes@.dom() == o.nodes@.dom().remove(cur),
        forall|x: usize| x != par && x != cur && o.live(x) ==> #[trigger] s.nodes@[x] == o.nodes@[x],
        s.node(par).spec_previous() == o.node(par).spec_previous(),
        s.pre(par) == o.pre(par),
        s.node(par).leaf_of() == o.node(par).leaf_of(),
        s.node(par).branch_of() == (if dropped { None } else { Some(pb) }),
        dropped ==> o.node(par).leaf_of() is Some && o.branches@[pb].size() == 1,
        dropped ==> s.branches@.dom() == o.branches@.dom().remove(pb),
        !dropped ==> s.branches@.dom() == o.branches@.dom(),
        !dropped ==> s.branches@[pb].wf() && s.branches@[pb].size() >= 1 && s.branches@[pb].children()
            == o.branches@[pb].children().remove(o.pos@[cur].last()),
        forall|x: usize| x != pb && o.branches@.contains_key(x) ==> #[trigger] s.branches@[x] == o.branches@[x],
        s.leaves@ == o.leaves@.remove(l),
        s.leaf_owner@ == o.leaf_owner@.remove(l),
        s.key_node@ == o.key_node@.remove(o.full(cur)),
        s.branch_owner@ == (if dropped { o.branch_owner@.remove(pb) } else { o.branch_owner@ }),
        s.pos@ == o.pos@,
        s.depth@ == o.depth@,
        s.root == o.root,
    ensures
        s.shape_ok(),
        s.compressed_except(par),
        s@ == o@.remove(o.full(cur)),
        s.live(par),
{
    o.lemma_node(cur);
    o.lemma_parent(cur);
    o.lemma_node(par);
    let p = o.pos@[cur].last();
    assert(s.full(par) == o.full(par));
    assert forall|x: usize| x != cur && #[trigger] s.nodes@.contains_key(x) implies s.full(x) == o.full(x) by {
    }
    assert forall|x: usize| #[trigger] s.nodes@.contains_key(x) implies s.node_ok(x) by {
        o.lemma_node(x);
        assert(s.full(x) == o.full(x));
        if x != s.root {
            o.lemma_parent(x);
            let px = o.node(x).spec_previous();
            o.lemma_node(px);
            assert(px != cur);
            assert(s.full(px) == o.full(px));
            if px == par {
                assert(o.pos@[x].last() != p);
                if dropped {
                    o.branches@[pb].lemma_size();
                    assert(o.bview(par).contains_key(o.pos@[x].last()));
                    assert(false);
                }
            } else {
                let xb = o.node(px).branch_of().unwrap();
                assert(xb != pb);
            }
            assert(s.parent_ok(x));
        }
        if s.node(x).branch_of() is Some && x != par {
            let xb = s.node(x).branch_of().unwrap();
            assert(xb != pb);
        }
        if s.node(x).leaf_of() is Some {
            assert(s.node(x).leaf_of() != Some(l));
            assert(o.full(x) != o.full(cur));
        }
    }
    assert forall|x: usize, q: K| #[trigger] s.has_child(x, q) implies s.child_ok(x, q) by {
        o.lemma_node(x);
        if x != par {
            let xb = s.node(x).branch_of().unwrap();
            assert(xb != pb);
        }
        assert(o.has_child(x, q));
        o.lemma_child(x, q);
        assert(s.full(x) == o.full(x));
        let y = o.bview(x)[q];
        if y == cur {
            assert(o.pos@[cur] == o.full(x).push(q));
            assert(x == par);
            assert(q == p);
        }
    }
    assert forall|x: usize| s.nodes@.contains_key(x) && x != par implies #[trigger] s.compressed_at(x) by {
        assert(o.compressed_at(x));
        o.lemma_node(x);
        if s.node(x).branch_of() is Some {
            let xb = s.node(x).branch_of().unwrap();
            assert(xb != pb);
        }
    }
    assert forall|m: usize| #[trigger] s.leaves@.contains_key(m) implies {
        &&& s.leaf_owner@.contains_key(m)
        &&& s.live(s.leaf_owner@[m])
        &&& s.node(s.leaf_owner@[m]).leaf_of() == Some(m)
    } by {
        assert(o.leaves@.contains_key(m));
        assert(o.leaf_owner@[m] != cur);
    }
    assert forall|x: usize| #[trigger] s.branches@.contains_key(x) implies {
        &&& s.branch_owner@.contains_key(x)
        &&& s.live(s.branch_owner@[x])
        &&& s.node(s.branch_owner@[x]).branch_of() == Some(x)
    } by {
        assert(o.branches@.contains_key(x));
        assert(o.branch_owner@[x] != cur);
    }
    assert forall|k: Seq<K>| #[trigger] s.key_node@.contains_key(k) implies {
        &&& s.live(s.key_node@[k])
        &&& s.node(s.key_node@[k]).leaf_of() is Some
        &&& s.full(s.key_node@[k]) == k
    } by {
        o.lemma_key(k);
    }
    assert forall|k: Seq<K>| #[trigger] s@.contains_key(k) implies s@[k] == o@.remove(o.full(cur))[k] by {
        o.lemma_key(k);
        let x = o.key_node@[k];
        assert(x != cur);
        assert(o.node(x).leaf_of() != Some(l));
    }
    assert(s@ =~= o@.remove(o.full(cur)));
}

/// The state after splitting the edge of `cur` at its `j`-th prefix piece,
/// with the tail and the data moved into the new child `c`, is well formed
/// and stores the same keys.
#[verifier::rlimit(100)]
proof fn lemma_split_into<K: Piece, V, B: Branch<K>>(o: Trie<K, V, B>, s: Trie<K, V, B>, cur: usize, c: usize, i: int, j: int, b: usize)
    requires
        o.wf(),
        o.live(cur),
        !o.live(c),
        i == o.pos@[cur].len(),
        0 <= j < o.pre(cur).len(),
        s.nodes.wf(),
        s.branches.wf(),
        s.leaves.wf(),
        s.nodes@.dom() == o.nodes@.dom().insert(c),
        forall|x: usize|
            o.live(x) && x != cur ==> {
                &&& #[trigger] s.pre(x) == o.pre(x)
                &&& s.node(x).leaf_of() == o.node(x).leaf_of()
                &&& s.node(x).branch_of() == o.node(x).branch_of()
                &&& s.node(x).spec_previous() == (if o.node(x).spec_previous() == cur && x != o.root {
                    c
                } else {
                    o.node(x).spec_previous()
                })
            },
        s.node(cur).spec_previous() == o.node(cur).spec_previous(),
        s.pre(cur) == o.pre(cur).take(j),
        s.node(cur).leaf_of() is None,
        s.node(cur).branch_of() == Some(b),
        s.node(c).spec_previous() == cur,
        s.pre(c) == o.pre(cur).skip(j + 1),
        s.node(c).leaf_of() == o.node(cur).leaf_of(),
        s.node(c).branch_of() == o.node(cur).branch_of(),
        !o.branches@.contains_key(b),
        s.branches@.dom() == o.branches@.dom().insert(b),
        s.branches@[b].wf(),
        s.branches@[b].size() == 1,
        s.branches@[b].children() == map![o.pre(cur)[j] => c],
        forall|x: usize| x != b && o.branches@.contains_key(x) ==> #[trigger] s.branches@[x] == o.branches@[x],
        s.leaves@ == o.leaves@,
        s.leaf_owner@ == (if o.node(cur).leaf_of() is Some {
            o.leaf_owner@.insert(o.node(cur).leaf_of().unwrap(), c)
        } else {
            o.leaf_owner@
        }),
        s.branch_owner@ == (if o.node(cur).branch_of() is Some {
            o.branch_owner@.insert(o.node(cur).branch_of().unwrap(), c).insert(b, cur)
        } else {
            o.branch_owner@.insert(b, cur)
        }),
        s.key_node@ == (if o.node(cur).leaf_of() is Some { o.key_node@.insert(o.full(cur), c) } else { o.key_node@ }),
        s.pos@ == o.pos@.insert(c, o.full(cur).take(i + j + 1)),
        s.depth@ == o.depth@,
        s.root == o.root,
    ensures
        s.shape_ok(),
        s.compressed_except(cur),
        s@ == o@,
        s.full(cur) == o.full(cur).take(i + j),
        s.full(c) == o.full(cur),
{
    let sp = o.pre(cur)[j];
    o.lemma_node(cur);
    let par = o.node(cur).spec_previous();
    if cur != o.root {
        o.lemma_parent(cur);
        o.lemma_node(par);
    }
    assert(c != cur);
    assert(s.full(c) =~= o.full(cur));
    assert(s.full(cur) =~= o.full(cur).take(i + j));
    assert(s.full(cur).push(sp) =~= o.full(cur).take(i + j + 1));
    assert forall|x: usize| x != cur && x != c && #[trigger] s.nodes@.contains_key(x) implies s.full(x) == o.full(x) by {
    }
    assert(s.branches@[b].children().contains_key(sp));
    assert forall|x: usize| #[trigger] s.nodes@.contains_key(x) implies s.node_ok(x) by {
        if x == cur {
            if cur != s.root {
                assert(par != c);
                assert(s.full(par) == o.full(par));
                let pb = o.node(par).branch_of().unwrap();
                assert(pb != b);
                assert(s.parent_ok(cur));
            }
        } else if x == c {
            assert(s.parent_ok(c));
            if s.node(c).branch_of() is Some {
                let cb = s.node(c).branch_of().unwrap();
                assert(cb != b);
            }
            if s.node(c).leaf_of() is Some {
                assert(s.key_node@[s.full(c)] == c);
            }
        } else {
            o.lemma_node(x);
            assert(s.full(x) == o.full(x));
            if x != s.root {
                o.lemma_parent(x);
                let px = o.node(x).spec_previous();
                o.lemma_node(px);
                if px == cur {
                    assert(s.parent_ok(x));
                } else {
                    assert(s.full(px) == o.full(px));
                    let pb = o.node(px).branch_of().unwrap();
                    assert(pb != b);
                    assert(s.parent_ok(x));
                }
            }
            if s.node(x).branch_of() is Some {
                let xb = s.node(x).branch_of().unwrap();
                assert(xb != b);
                if o.node(cur).branch_of() is Some {
                    assert(xb != o.node(cur).branch_of().unwrap());
                }
            }
            if s.node(x).leaf_of() is Some {
                if o.node(cur).leaf_of() is Some {
                    assert(o.full(x) != o.full(cur));
                    assert(s.node(x).leaf_of() != o.node(cur).leaf_of());
                }
            }
        }
    }
    assert forall|x: usize, q: K| #[trigger] s.has_child(x, q) implies s.child_ok(x, q) by {
        if x == cur {
            assert(q == sp);
            assert(c != s.root);
            assert(s.bview(cur)[q] == c);
            assert(s.pos@[c] == s.full(cur).push(sp));
        } else if x == c {
            assert(o.has_child(cur, q));
            o.lemma_child(cur, q);
            let g = o.bview(cur)[q];
            assert(o.pos@[g].len() == o.full(cur).len() + 1);
            assert(g != cur);
            assert(g != c);
            assert(s.bview(c) == o.bview(cur));
            assert(s.pre(g) == o.pre(g));
            assert(s.node(g).spec_previous() == c);
            assert(s.pos@[g] == o.pos@[g]);
        } else {
            o.lemma_node(x);
            let xb = s.node(x).branch_of().unwrap();
            assert(xb != b);
            assert(o.has_child(x, q));
            o.lemma_child(x, q);
            assert(s.full(x) == o.full(x));
            let y = o.bview(x)[q];
            assert(s.bview(x) == o.bview(x));
            assert(y != c);
            if y == cur {
                assert(s.node(cur).spec_previous() == x);
            } else {
                assert(s.pre(y) == o.pre(y));
                assert(s.node(y).spec_previous() == x);
            }
            assert(s.pos@[y] == o.pos@[y]);
        }
    }
    assert forall|x: usize| s.nodes@.contains_key(x) && x != cur implies #[trigger] s.compressed_at(x) by {
        if x == c {
            assert(o.compressed_at(cur));
            if s.node(c).branch_of() is Some {
                let cb = s.node(c).branch_of().unwrap();
                assert(cb != b);
            }
        } else {
            assert(o.compressed_at(x));
            o.lemma_node(x);
            if s.node(x).branch_of() is Some {
                let xb = s.node(x).branch_of().unwrap();
                assert(xb != b);
            }
        }
    }
    assert forall|l: usize| #[trigger] s.leaves@.contains_key(l) implies {
        &&& s.leaf_owner@.contains_key(l)
        &&& s.live(s.leaf_owner@[l])
        &&& s.node(s.leaf_owner@[l]).leaf_of() == Some(l)
    } by {
        assert(o.leaves@.contains_key(l));
        if o.node(cur).leaf_of() != Some(l) {
            assert(o.leaf_owner@[l] != cur);
        }
    }
    assert forall|x: usize| #[trigger] s.branches@.contains_key(x) implies {
        &&& s.branch_owner@.contains_key(x)
        &&& s.live(s.branch_owner@[x])
        &&& s.node(s.branch_owner@[x]).branch_of() == Some(x)
    } by {
        if x != b {
            assert(o.branches@.contains_key(x));
            let y = o.branch_owner@[x];
            assert(o.live(y));
            assert(y != c);
            if o.node(cur).branch_of() == Some(x) {
                assert(s.branch_owner@[x] == c);
            } else {
                assert(y != cur);
                assert(s.branch_owner@[x] == y);
                assert(s.pre(y) == o.pre(y));
                assert(s.node(y).branch_of() == o.node(y).branch_of());
            }
        } else {
            assert(s.branch_owner@[b] == cur);
        }
    }
    assert forall|k: Seq<K>| #[trigger] s.key_node@.contains_key(k) implies {
        &&& s.live(s.key_node@[k])
        &&& s.node(s.key_node@[k]).leaf_of() is Some
        &&& s.full(s.key_node@[k]) == k
    } by {
        if o.key_node@.contains_key(k) {
            o.lemma_key(k);
        }
    }
    assert forall|k: Seq<K>| #[trigger] s@.contains_key(k) implies s@[k] == o@[k] by {
        o.lemma_key(k);
    }
    assert forall|k: Seq<K>| #[trigger] s@.contains_key(k) == o@.contains_key(k) by {
        if o.node(cur).leaf_of() is Some && k == o.full(cur) {
            assert(o.key_node@.contains_key(o.full(cur)));
        }
    }
    assert(s@ =~= o@);
}

/// Inserting `v` under `k` makes `v` what `get(k)` returns.
pub proof fn law_round_trip<K: Piece, V, B: Branch<K>>(before: Trie<K, V, B>, after: Trie<K, V, B>, k: Seq<K>, v: V)
    requires
        after@ == before@.insert(k, v),
    ensures
        lookup(after@, k) == Some(v),
{
}

/// Inserting twice under one key: the second insert returns the first
/// value, and afterwards `get` sees the second.
pub proof fn law_replacement<K: Piece, V, B: Branch<K>>(
    before: Trie<K, V, B>,
    mid: Trie<K, V, B>,
    after: Trie<K, V, B>,
    k: Seq<K>,
    v1: V,
    v2: V,
)
    requires
        mid@ == before@.insert(k, v1),
        after@ == mid@.insert(k, v2),
    ensures
        lookup(mid@, k) == Some(v1),
        lookup(after@, k) == Some(v2),
        after@ == before@.insert(k, v2),
{
    assert(after@ =~= before@.insert(k, v2));
}

/// A well-formed trie that stores nothing has exactly the shape of a new
/// trie: every node, branch and leaf was reclaimed.
pub proof fn law_emptied_is_pristine<K: Piece, V, B: Branch<K>>(t: Trie<K, V, B>)
    requires
        t.wf(),
        t@ == Map::<Seq<K>, V>::empty(),
    ensures
        t.is_pristine(),
{
    assert forall|n: usize| #[trigger] t.nodes@.contains_key(n) implies t.node(n).leaf_of() is None by {
        t.lemma_node(n);
        if t.node(n).leaf_of() is Some {
            assert(t@.contains_key(t.full(n)));
        }
    }
    if !t.node(t.root).spec_is_empty() {
        let x = t.lemma_leaf_below(t.root);
    }
    t.lemma_node(t.root);
    assert forall|n: usize| #[trigger] t.nodes@.contains_key(n) implies n == t.root by {
        if n != t.root {
            t.lemma_root_branch(n);
        }
    }
    assert(t.nodes@.dom() =~= set![t.root]);
    assert forall|b: usize| !#[trigger] t.branches@.contains_key(b) by {
    }
    assert forall|l: usize| !#[trigger] t.leaves@.contains_key(l) by {
    }
    assert(t.branches@.dom() =~= Set::<usize>::empty());
    assert(t.leaves@.dom() =~= Set::<usize>::empty());
}

/// A new trie stores nothing.
pub proof fn law_pristine_is_empty<K: Piece, V, B: Branch<K>>(t: Trie<K, V, B>)
    requires
        t.wf(),
        t.is_pristine(),
    ensures
        t@ == Map::<Seq<K>, V>::empty(),
{
    assert forall|k: Seq<K>| !#[trigger] t.key_node@.contains_key(k) by {
        if t.key_node@.contains_key(k) {
            t.lemma_key(k);
        }
    }
    assert(t@ =~= Map::<Seq<K>, V>::empty());
}

/// Inserting a key into a new trie and removing it again gives back the
/// shape of a new trie.
pub proof fn law_insert_remove_restores<K: Piece, V, B: Branch<K>>(
    fresh: Trie<K, V, B>,
    mid: Trie<K, V, B>,
    after: Trie<K, V, B>,
    k: Seq<K>,
    v: V,
)
    requires
        fresh.wf(),
        fresh.is_pristine(),
        mid@ == fresh@.insert(k, v),
        after.wf(),
        after@ == mid@.remove(k),
    ensures
        after.is_pristine(),
{
    law_pristine_is_empty(fresh);
    assert(after@ =~= Map::<Seq<K>, V>::empty());
    law_emptied_is_pristine(after);
}

/// A trie holding a single key is a single root node carrying the leaf
/// directly under that key: no branch or inner node survives.
pub proof fn law_single_entry_shape<K: Piece, V, B: Branch<K>>(t: Trie<K, V, B>, k: Seq<K>)
    requires
        t.wf(),
        t@.dom() == set![k],
    ensures
        t.is_single_leaf(k),
{
    assert(t@.contains_key(k));
    t.lemma_key(k);
    let x = t.key_node@[k];
    let root = t.root;
    t.lemma_node(root);
    assert(!t.node(root).spec_is_empty()) by {
        if x != root {
            t.lemma_root_branch(x);
        }
    }
    if t.node(root).branch_of() is Some {
        let br = t.branches@[t.node(root).branch_of().unwrap()];
        br.lemma_size();
        let qa = br.piece_at(0);
        assert(t.has_child(root, qa));
        t.lemma_child(root, qa);
        let ca = t.bview(root)[qa];
        t.lemma_node(ca);
        let xa = t.lemma_leaf_below(ca);
        t.lemma_stored(xa);
        let d = t.full(root).len() as int;
        assert(t.full(xa)[d] == qa) by {
            assert(t.full(xa).take(t.full(ca).len() as int) == t.full(ca));
            assert(t.pos@[ca] == t.full(root).push(qa));
            assert(t.full(ca)[d] == t.pos@[ca][d]);
            assert(t.full(xa).take(t.full(ca).len() as int)[d] == t.full(xa)[d]);
        }
        if t.node(root).leaf_of() is Some {
            t.lemma_stored(root);
            assert(t@.contains_key(t.full(root)));
            assert(t.full(root) != t.full(xa));
            assert(t@.dom().contains(t.full(root)));
            assert(t@.dom().contains(t.full(xa)));
        } else {
            t.lemma_node(root);
            assert(t.compressed_at(root));
            let qb = br.piece_at(1);
            assert(t.has_child(root, qb));
            t.lemma_child(root, qb);
            let cb = t.bview(root)[qb];
            t.lemma_node(cb);
            let xb = t.lemma_leaf_below(cb);
            t.lemma_stored(xb);
            assert(t.full(xb)[d] == qb) by {
                assert(t.full(xb).take(t.full(cb).len() as int) == t.full(cb));
                assert(t.pos@[cb] == t.full(root).push(qb));
                assert(t.full(cb)[d] == t.pos@[cb][d]);
                assert(t.full(xb).take(t.full(cb).len() as int)[d] == t.full(xb)[d]);
            }
            assert(t.full(xa) != t.full(xb));
            assert(t@.dom().contains(t.full(xa)));
            assert(t@.dom().contains(t.full(xb)));
        }
    }
    assert forall|n: usize| #[trigger] t.nodes@.contains_key(n) implies n == root by {
        if n != root {
            t.lemma_root_branch(n);
        }
    }
    assert(t.nodes@.dom() =~= set![root]);
    assert(x == root);
    assert forall|b: usize| !#[trigger] t.branches@.contains_key(b) by {
    }
    assert(t.branches@.dom() =~= Set::<usize>::empty());
    assert(t.pos@[root] + t.pre(root) == t.pre(root));
}

/// Inserting pairs into a new trie and then removing every inserted key, in
/// any order, leaves a trie that stores nothing and has exactly the shape of
/// a new trie.
pub proof fn law_deletion_symmetry<K: Piece, V, B: Branch<K>>(
    pairs: Seq<(Seq<K>, V)>,
    order: Seq<Seq<K>>,
    after: Trie<K, V, B>,
)
    requires
        forall|i: int| 0 <= i < pairs.len() ==> order.contains(#[trigger] pairs[i].0),
        after.wf(),
        after@ == removed_all(inserted_all(Map::<Seq<K>, V>::empty(), pairs), order),
    ensures
        after@ == Map::<Seq<K>, V>::empty(),
        after.is_pristine(),
{
    let start = inserted_all(Map::<Seq<K>, V>::empty(), pairs);
    assert forall|k: Seq<K>| !#[trigger] after@.contains_key(k) by {
        lemma_removed_dom(start, order, k);
        if start.contains_key(k) {
            lemma_inserted_dom(Map::<Seq<K>, V>::empty(), pairs, k);
            let i = choose|i: int| 0 <= i < pairs.len() && (#[trigger] pairs[i]).0 == k;
            assert(order.contains(pairs[i].0));
        }
    }
    assert(after@ =~= Map::<Seq<K>, V>::empty());
    law_emptied_is_pristine(after);
}

} // verus!
