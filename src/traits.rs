//! Behaviour shared by the object kinds: encoding and content hashing.
use crate::digest::{content_hash, content_id, is_object_id};
use vstd::prelude::*;

verus! {

/// A value with a canonical byte encoding.
pub trait ToBytes {
    /// Whether the value can be encoded at all.
    spec fn encodable(&self) -> bool;

    /// The canonical encoding.
    spec fn encoded(&self) -> Seq<u8>;

    fn to_bytes(&self) -> (r: Vec<u8>)
        requires
            self.encodable(),
        ensures
            r@ == self.encoded(),
    ;
}

/// A value identified by the content hash of its encoding.
pub trait Hash: ToBytes {
    fn hash(&self) -> (r: String)
        requires
            self.encodable(),
        ensures
            r@ == content_id(self.encoded()),
            is_object_id(r@),
    ;
}

impl<T: ToBytes> Hash for T {
    fn hash(&self) -> (r: String) {
        let b = self.to_bytes();
        content_hash(b.as_slice())
    }
}

} // verus!
