//! Blob objects: raw file content behind a header.
use crate::bytes::push_all;
use crate::digest::content_id;
use crate::error::{DecodeError, StoreError};
use crate::store::{zlib_deflate, zlib_inflate, ObjectSave, ObjectStore};
use crate::header::{header_encoding, lemma_parse_header_encoding, parse_header, ObjectHeader, ObjectType};
use crate::traits::ToBytes;
use vstd::prelude::*;

verus! {

/// An object with its header and payload.  As a blob it holds file content;
/// reading any stored object this way yields its header and raw payload.
#[derive(Debug)]
pub struct BlobObject {
    pub header: ObjectHeader,
    pub data: Vec<u8>,
}

/// Reads an object as a header and the `size` payload bytes that follow it.
pub open spec fn parse_blob(b: Seq<u8>) -> Result<(ObjectHeader, Seq<u8>), DecodeError> {
    match parse_header(b) {
        Err(e) => Err(e),
        Ok((h, n)) => {
            if b.len() - n < h.size {
                Err(DecodeError::SizeMismatch)
            } else {
                Ok((h, b.subrange(n, n + h.size)))
            }
        },
    }
}

impl BlobObject {
    /// A blob whose header is consistent with its content.
    pub open spec fn is_valid(&self) -> bool {
        &&& self.header.object_type == ObjectType::Blob
        &&& self.header.size == self.data@.len()
    }

    pub fn new(data: Vec<u8>) -> (r: BlobObject)
        ensures
            r.header == (ObjectHeader { object_type: ObjectType::Blob, size: data@.len() as usize }),
            r.data@ == data@,
            r.is_valid(),
    {
        let size = data.len();
        BlobObject { header: ObjectHeader { object_type: ObjectType::Blob, size }, data }
    }

    /// Decodes a stored object into its header and payload.
    pub fn try_from(data: Vec<u8>) -> (r: Result<BlobObject, DecodeError>)
        ensures
            match r {
                Ok(o) => parse_blob(data@) == Ok::<(ObjectHeader, Seq<u8>), DecodeError>(
                    (o.header, o.data@),
                ),
                Err(e) => parse_blob(data@) == Err::<(ObjectHeader, Seq<u8>), DecodeError>(e),
            },
    {
        let (header, n) = match ObjectHeader::parse_prefix(data.as_slice()) {
            Ok(p) => p,
            Err(e) => return Err(e),
        };
        if data.len() - n < header.size {
            return Err(DecodeError::SizeMismatch);
        }
        let payload = crate::bytes::copy_range(data.as_slice(), n, n + header.size);
        Ok(BlobObject { header, data: payload })
    }
}

impl ToBytes for BlobObject {
    open spec fn encodable(&self) -> bool {
        true
    }

    open spec fn encoded(&self) -> Seq<u8> {
        header_encoding(ObjectType::Blob, self.header.size as nat) + self.data@
    }

    /// `"blob <size>\0"` followed by the content.
    fn to_bytes(&self) -> (r: Vec<u8>) {
        let h = ObjectHeader { object_type: ObjectType::Blob, size: self.header.size };
        let mut r = h.to_bytes();
        push_all(&mut r, self.data.as_slice());
        r
    }
}

impl BlobObject {
    /// Stores `data` as a blob and returns the blob.
    pub fn write_blob_object(data: Vec<u8>, store: &mut ObjectStore) -> (r: Result<BlobObject, StoreError>)
        requires
            old(store).wf(),
        ensures
            final(store).wf(),
            r is Ok,
            r matches Ok(b) ==> b.data@ == data@ && b.is_valid() && final(store)@ == old(store)@.insert(
                content_id(b.encoded()),
                zlib_deflate(b.encoded()),
            ) && zlib_inflate(zlib_deflate(b.encoded())) == Some(b.encoded()),
    {
        let blob = BlobObject::new(data);
        match blob.save_object(store) {
            Ok(_) => Ok(blob),
            Err(e) => Err(e),
        }
    }
}

/// Decoding the encoding of a valid blob gives the blob back.
pub proof fn blob_round_trip(b: BlobObject)
    requires
        b.is_valid(),
    ensures
        parse_blob(b.encoded()) == Ok::<(ObjectHeader, Seq<u8>), DecodeError>((b.header, b.data@)),
{
    lemma_parse_header_encoding(b.header, b.data@);
    let e = b.encoded();
    assert(e == b.header.encoding() + b.data@);
    assert(e.subrange(b.header.encoding().len() as int, b.header.encoding().len() + b.data@.len() as int)
        =~= b.data@);
}

} // verus!
