use crate::piece::Piece;
use vstd::prelude::*;
use vstd::string::StringSliceAdditionalSpecFns;

verus! {

/// Something that can be read as a key: a sequence of pieces.
pub trait Key {
    type Piece: Piece;

    spec fn spec_pieces(&self) -> Seq<Self::Piece>;

    /// The pieces of the key, in order.
    fn pieces(&self) -> (r: Vec<Self::Piece>)
        ensures
            r@ == self.spec_pieces(),
    ;
}

fn copy_all<T: Piece>(s: &[T]) -> (r: Vec<T>)
    ensures
        r@ == s@,
{
    let mut r: Vec<T> = Vec::new();
    let mut i: usize = 0;
    while i < s.len()
        invariant
            i <= s@.len(),
            r@ == s@.take(i as int),
        decreases s@.len() - i,
    {
        r.push(s[i]);
        i += 1;
        proof {
            assert(r@ =~= s@.take(i as int));
        }
    }
    proof {
        assert(s@.take(s@.len() as int) =~= s@);
    }
    r
}

impl<T: Piece> Key for Vec<T> {
    type Piece = T;

    open spec fn spec_pieces(&self) -> Seq<T> {
        self@
    }

    fn pieces(&self) -> (r: Vec<T>) {
        copy_all(self.as_slice())
    }
}

/// A string read as the bytes of its UTF-8 encoding.
pub struct ByteString(pub String);

impl Key for ByteString {
    type Piece = u8;

    open spec fn spec_pieces(&self) -> Seq<u8> {
        vstd::utf8::encode_utf8(self.0@)
    }

    fn pieces(&self) -> (r: Vec<u8>) {
        let s = self.0.as_str();
        let bytes = s.as_bytes();
        proof {
            assert(bytes@ == s.spec_bytes());
        }
        copy_all(bytes)
    }
}

} // verus!
