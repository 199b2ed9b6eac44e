use vstd::prelude::*;

verus! {

/// One atomic unit of a key. Pieces are compared for equality and ordered
/// through an integer rank, which is injective.
pub trait Piece: Copy + Sized {
    spec fn rank(&self) -> int;

    proof fn lemma_rank_injective(a: Self, b: Self)
        ensures
            a.rank() == b.rank() ==> a == b,
    ;

    fn same(&self, other: &Self) -> (r: bool)
        ensures
            r == (*self == *other),
    ;

    fn precedes(&self, other: &Self) -> (r: bool)
        ensures
            r == (self.rank() < other.rank()),
    ;
}

impl Piece for u8 {
    open spec fn rank(&self) -> int {
        *self as int
    }

    proof fn lemma_rank_injective(a: Self, b: Self) {
    }

    fn same(&self, other: &Self) -> (r: bool) {
        *self == *other
    }

    fn precedes(&self, other: &Self) -> (r: bool) {
        *self < *other
    }
}

impl Piece for u16 {
    open spec fn rank(&self) -> int {
        *self as int
    }

    proof fn lemma_rank_injective(a: Self, b: Self) {
    }

    fn same(&self, other: &Self) -> (r: bool) {
        *self == *other
    }

    fn precedes(&self, other: &Self) -> (r: bool) {
        *self < *other
    }
}

impl Piece for u32 {
    open spec fn rank(&self) -> int {
        *self as int
    }

    proof fn lemma_rank_injective(a: Self, b: Self) {
    }

    fn same(&self, other: &Self) -> (r: bool) {
        *self == *other
    }

    fn precedes(&self, other: &Self) -> (r: bool) {
        *self < *other
    }
}

impl Piece for u64 {
    open spec fn rank(&self) -> int {
        *self as int
    }

    proof fn lemma_rank_injective(a: Self, b: Self) {
    }

    fn same(&self, other: &Self) -> (r: bool) {
        *self == *other
    }

    fn precedes(&self, other: &Self) -> (r: bool) {
        *self < *other
    }
}

impl Piece for usize {
    open spec fn rank(&self) -> int {
        *self as int
    }

    proof fn lemma_rank_injective(a: Self, b: Self) {
    }

    fn same(&self, other: &Self) -> (r: bool) {
        *self == *other
    }

    fn precedes(&self, other: &Self) -> (r: bool) {
        *self < *other
    }
}

impl Piece for char {
    open spec fn rank(&self) -> int {
        *self as int
    }

    proof fn lemma_rank_injective(a: Self, b: Self) {
    }

    fn same(&self, other: &Self) -> (r: bool) {
        *self == *other
    }

    fn precedes(&self, other: &Self) -> (r: bool) {
        *self < *other
    }
}

} // verus!
