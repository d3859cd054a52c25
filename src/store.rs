//! The content-addressed object store: each object is kept compressed
//! under the hash of its encoding.
use crate::blob::{parse_blob, BlobObject};
use crate::digest::content_id;
use crate::error::StoreError;
use crate::traits::ToBytes;
use crate::tree::{parse_tree, TreeObject};
use flate2::read::ZlibDecoder;
use flate2::write::ZlibEncoder;
use std::io::{Read, Write};
use vstd::prelude::*;
use vstd::string::{StrSliceExecFns, StringExecFns};

verus! {

/// The zlib stream that the default compression level makes of `data`.
pub uninterp spec fn zlib_deflate(data: Seq<u8>) -> Seq<u8>;

/// What decoding `data` as a zlib stream yields, if it is one.
pub uninterp spec fn zlib_inflate(data: Seq<u8>) -> Option<Seq<u8>>;

/// Relies on flate2::write::ZlibEncoder at the default level, writing into
/// a `Vec`: that sink never fails and the default level raises no
/// compression error, so it succeeds; its output depends on the input
/// alone, and decoding that output gives the input.
#[verifier::external_body]
pub(crate) fn compress(data: &[u8]) -> (r: Option<Vec<u8>>)
    ensures
        r is Some,
        r matches Some(c) ==> c@ == zlib_deflate(data@) && zlib_inflate(c@) == Some(data@),
{
    let mut z = ZlibEncoder::new(Vec::new(), flate2::Compression::default());
    match z.write_all(data) {
        Ok(()) => z.finish().ok(),
        Err(_) => None,
    }
}

/// Relies on flate2::read::ZlibDecoder read to the end: it fails, or yields
/// the decoded bytes, as the input alone decides.
#[verifier::external_body]
pub(crate) fn decompress(data: &[u8]) -> (r: Option<Vec<u8>>)
    ensures
        match r {
            Some(v) => zlib_inflate(data@) == Some(v@),
            None => zlib_inflate(data@) is None,
        },
{
    let mut z = ZlibDecoder::new(data);
    let mut out = Vec::new();
    match z.read_to_end(&mut out) {
        Ok(_) => Some(out),
        Err(_) => None,
    }
}

/// Byte contents keyed by text: stored objects by content hash, or ref
/// files by path.
pub struct FileMap {
    keys: Vec<String>,
    values: Vec<Vec<u8>>,
    contents: Ghost<Map<Seq<char>, Seq<u8>>>,
}

impl View for FileMap {
    type V = Map<Seq<char>, Seq<u8>>;

    closed spec fn view(&self) -> Map<Seq<char>, Seq<u8>> {
        self.contents@
    }
}

impl FileMap {
    /// The lists hold each key once and agree with the map.
    pub closed spec fn wf(&self) -> bool {
        &&& self.keys@.len() == self.values@.len()
        &&& forall|i: int, j: int|
            0 <= i < j < self.keys@.len() ==> #[trigger] self.keys@[i]@ != #[trigger] self.keys@[j]@
        &&& forall|i: int|
            0 <= i < self.keys@.len() ==> #[trigger] self.contents@.contains_key(self.keys@[i]@)
                && self.contents@[self.keys@[i]@] == self.values@[i]@
        &&& forall|k: Seq<char>|
            #[trigger] self.contents@.contains_key(k) ==> exists|i: int|
                0 <= i < self.keys@.len() && #[trigger] self.keys@[i]@ == k
    }

    /// The number of keys.
    pub closed spec fn count(&self) -> nat {
        self.keys@.len()
    }

    /// The `i`-th key.
    pub closed spec fn key_at(&self, i: int) -> Seq<char> {
        self.keys@[i]@
    }

    /// An empty map.
    pub fn new() -> (r: FileMap)
        ensures
            r.wf(),
            r@ == Map::<Seq<char>, Seq<u8>>::empty(),
            r.count() == 0,
    {
        FileMap { keys: Vec::new(), values: Vec::new(), contents: Ghost(Map::empty()) }
    }

    /// The number of keys.
    pub fn len(&self) -> (r: usize)
        requires
            self.wf(),
        ensures
            r == self.count(),
            r == self@.len(),
    {
        proof {
            self.lemma_len();
        }
        self.keys.len()
    }

    proof fn lemma_len(&self)
        requires
            self.wf(),
        ensures
            self@.len() == self.count(),
    {
        let names = self.keys@.map_values(|h: String| h@);
        assert(names.no_duplicates()) by {
            assert forall|i: int, j: int| 0 <= i < names.len() && 0 <= j < names.len() && i != j implies names[i] != names[j] by {
                if i < j {
                    assert(self.keys@[i]@ != self.keys@[j]@);
                } else {
                    assert(self.keys@[j]@ != self.keys@[i]@);
                }
            }
        }
        assert(names.to_set() =~= self@.dom()) by {
            assert forall|k: Seq<char>| names.to_set().contains(k) <==> self@.dom().contains(k) by {
                if self@.dom().contains(k) {
                    let i = choose|i: int| 0 <= i < self.keys@.len() && #[trigger] self.keys@[i]@ == k;
                    assert(names[i] == k);
                }
                if names.to_set().contains(k) {
                    let i = choose|i: int| 0 <= i < names.len() && names[i] == k;
                    assert(self.keys@[i]@ == k);
                }
            }
        }
        names.unique_seq_to_set();
    }

    /// The `i`-th key.
    pub fn key(&self, i: usize) -> (r: &String)
        requires
            self.wf(),
            i < self.count(),
        ensures
            r@ == self.key_at(i as int),
            self@.contains_key(r@),
    {
        &self.keys[i]
    }

    /// The contents under the `i`-th key.
    pub fn value(&self, i: usize) -> (r: &Vec<u8>)
        requires
            self.wf(),
            i < self.count(),
        ensures
            self@.contains_key(self.key_at(i as int)),
            r@ == self@[self.key_at(i as int)],
    {
        &self.values[i]
    }

    fn index_of(&self, hash: &str) -> (r: Option<usize>)
        requires
            self.wf(),
        ensures
            match r {
                Some(i) => i < self.keys@.len() && self.keys@[i as int]@ == hash@,
                None => !self@.contains_key(hash@),
            },
    {
        let mut i: usize = 0;
        while i < self.keys.len()
            invariant
                self.wf(),
                i <= self.keys@.len(),
                forall|j: int| 0 <= j < i ==> #[trigger] self.keys@[j]@ != hash@,
            decreases self.keys@.len() - i,
        {
            if crate::bytes::same_text(self.keys[i].as_str(), hash) {
                return Some(i);
            }
            i = i + 1;
        }
        None
    }

    /// Whether anything is stored under `hash`.
    pub fn contains(&self, hash: &str) -> (r: bool)
        requires
            self.wf(),
        ensures
            r == self@.contains_key(hash@),
    {
        self.index_of(hash).is_some()
    }

    /// Stores `data` under `hash`, replacing what was there.
    pub fn insert(&mut self, hash: String, data: Vec<u8>)
        requires
            old(self).wf(),
        ensures
            final(self).wf(),
            final(self)@ == old(self)@.insert(hash@, data@),
    {
        let ghost key = hash@;
        let ghost value = data@;
        match self.index_of(hash.as_str()) {
            Some(i) => {
                self.values.set(i, data);
                self.contents = Ghost(self.contents@.insert(key, value));
                assert forall|j: int| 0 <= j < self.keys@.len() implies #[trigger] self.contents@.contains_key(self.keys@[j]@)
                    && self.contents@[self.keys@[j]@] == self.values@[j]@ by {
                    if j != i {
                        assert(self.keys@[j]@ != key);
                    }
                }
            },
            None => {
                self.keys.push(hash);
                self.values.push(data);
                self.contents = Ghost(self.contents@.insert(key, value));
                let ghost n: int = self.keys@.len() - 1;
                assert forall|k: Seq<char>| #[trigger] self.contents@.contains_key(k) implies exists|i: int|
                    0 <= i < self.keys@.len() && #[trigger] self.keys@[i]@ == k by {
                    if k == key {
                        assert(self.keys@[n]@ == k);
                    } else {
                        assert(old(self).contents@.contains_key(k));
                        let i = choose|i: int| 0 <= i < old(self).keys@.len() && #[trigger] old(self).keys@[i]@ == k;
                        assert(self.keys@[i]@ == k);
                    }
                }
            },
        }
    }

    /// The contents stored under `hash`.
    pub fn get(&self, hash: &str) -> (r: Option<&Vec<u8>>)
        requires
            self.wf(),
        ensures
            match r {
                Some(v) => self@.contains_key(hash@) && v@ == self@[hash@],
                None => !self@.contains_key(hash@),
            },
    {
        match self.index_of(hash) {
            Some(i) => {
                assert(self.contents@.contains_key(self.keys@[i as int]@));
                Some(&self.values[i])
            },
            None => None,
        }
    }
}

/// Compressed objects keyed by content hash.
pub type ObjectStore = FileMap;

/// `"objects/"`
pub open spec fn objects_dir() -> Seq<char> {
    seq!['o', 'b', 'j', 'e', 'c', 't', 's', '/']
}

/// Where the object `hash` lives under the metadata directory: its first
/// two characters name a directory, the rest the file.
pub open spec fn object_rel_path(hash: Seq<char>) -> Seq<char> {
    objects_dir() + hash.subrange(0, 2) + seq!['/'] + hash.subrange(2, hash.len() as int)
}

/// The path of the object `hash` under the metadata directory; `None` when
/// the hash is shorter than two characters.
pub fn object_path(hash: &str) -> (r: Option<String>)
    ensures
        match r {
            Some(p) => hash@.len() >= 2 && p@ == object_rel_path(hash@),
            None => hash@.len() < 2,
        },
{
    let n = hash.unicode_len();
    if n < 2 {
        return None;
    }
    proof {
        reveal_strlit("objects/");
        reveal_strlit("/");
        assert("objects/"@ =~= objects_dir());
        assert("/"@ =~= seq!['/']);
    }
    let mut p = "objects/".to_owned();
    p.append(hash.substring_char(0, 2));
    p.append("/");
    p.append(hash.substring_char(2, n));
    Some(p)
}

/// `s` without any `'/'`.
pub open spec fn without_slashes(s: Seq<char>) -> Seq<char>
    decreases s.len(),
{
    if s.len() == 0 {
        Seq::empty()
    } else if s.last() == '/' {
        without_slashes(s.drop_last())
    } else {
        without_slashes(s.drop_last()).push(s.last())
    }
}

/// The hash of the object stored at `rel`, a path relative to the objects
/// directory: the path with its separators removed.
pub fn hash_from_object_path(rel: &str) -> (r: String)
    ensures
        r@ == without_slashes(rel@),
{
    let n = rel.unicode_len();
    let mut out = String::new();
    let mut i: usize = 0;
    assert(rel@.subrange(0, 0) =~= Seq::<char>::empty());
    while i < n
        invariant
            i <= n == rel@.len(),
            out@ == without_slashes(rel@.subrange(0, i as int)),
        decreases n - i,
    {
        let c = rel.get_char(i);
        assert(rel@.subrange(0, i + 1).drop_last() =~= rel@.subrange(0, i as int));
        if c != '/' {
            let piece = rel.substring_char(i, i + 1);
            out.append(piece);
            assert(piece@ =~= seq![c]);
        }
        i = i + 1;
    }
    assert(rel@.subrange(0, n as int) =~= rel@);
    out
}

/// What reading the object stored under `hash` yields: its decompressed
/// encoding, or why there is none.
pub open spec fn read_object(store: Map<Seq<char>, Seq<u8>>, hash: Seq<char>) -> Result<Seq<u8>, StoreError> {
    if !store.contains_key(hash) {
        Err(StoreError::NotFound)
    } else {
        match zlib_inflate(store[hash]) {
            None => Err(StoreError::Corrupt),
            Some(v) => Ok(v),
        }
    }
}

/// Reads and decompresses the object stored under `hash`.
pub fn get_raw_object(store: &ObjectStore, hash: &str) -> (r: Result<Vec<u8>, StoreError>)
    requires
        store.wf(),
    ensures
        match r {
            Ok(v) => read_object(store@, hash@) == Ok::<Seq<u8>, StoreError>(v@),
            Err(e) => read_object(store@, hash@) == Err::<Seq<u8>, StoreError>(e),
        },
{
    match store.get(hash) {
        None => Err(StoreError::NotFound),
        Some(c) => match decompress(c.as_slice()) {
            None => Err(StoreError::Corrupt),
            Some(v) => Ok(v),
        },
    }
}

/// Reads the object stored under `hash` as a header and payload.
pub fn get_blob_object(store: &ObjectStore, hash: &str) -> (r: Result<BlobObject, StoreError>)
    requires
        store.wf(),
    ensures
        match read_object(store@, hash@) {
            Err(e) => r == Err::<BlobObject, StoreError>(e),
            Ok(raw) => match parse_blob(raw) {
                Err(d) => r == Err::<BlobObject, StoreError>(StoreError::Decode(d)),
                Ok((h, data)) => r matches Ok(b) && b.header == h && b.data@ == data,
            },
        },
{
    let raw = match get_raw_object(store, hash) {
        Ok(v) => v,
        Err(e) => return Err(e),
    };
    match BlobObject::try_from(raw) {
        Ok(b) => Ok(b),
        Err(d) => Err(StoreError::Decode(d)),
    }
}

/// Reads the object stored under `hash` as a tree.
pub fn get_tree_object(store: &ObjectStore, hash: &str) -> (r: Result<TreeObject, StoreError>)
    requires
        store.wf(),
    ensures
        match read_object(store@, hash@) {
            Err(e) => r == Err::<TreeObject, StoreError>(e),
            Ok(raw) => match parse_tree(raw) {
                Err(d) => r == Err::<TreeObject, StoreError>(StoreError::Decode(d)),
                Ok((h, es)) => r matches Ok(t) && t.header == h && t.models() == es,
            },
        },
{
    let raw = match get_raw_object(store, hash) {
        Ok(v) => v,
        Err(e) => return Err(e),
    };
    match TreeObject::try_from(raw) {
        Ok(t) => Ok(t),
        Err(d) => Err(StoreError::Decode(d)),
    }
}

/// An object that can be put into the store.
pub trait ObjectSave: crate::traits::Hash {
    /// Compresses the object's encoding and stores it under its content
    /// hash, which is returned.
    fn save_object(&self, store: &mut ObjectStore) -> (r: Result<String, StoreError>)
        requires
            self.encodable(),
            old(store).wf(),
        ensures
            final(store).wf(),
            r is Ok,
            r matches Ok(h) ==> h@ == content_id(self.encoded()) && crate::digest::is_object_id(h@)
                && final(store)@ == old(store)@.insert(h@, zlib_deflate(self.encoded()))
                && zlib_inflate(zlib_deflate(self.encoded())) == Some(self.encoded()),
    ;
}

impl<T: ToBytes> ObjectSave for T {
    fn save_object(&self, store: &mut ObjectStore) -> (r: Result<String, StoreError>) {
        let bytes = self.to_bytes();
        let hash = crate::digest::content_hash(bytes.as_slice());
        match compress(bytes.as_slice()) {
            None => Err(StoreError::Io),
            Some(c) => {
                let key = hash.clone();
                store.insert(key, c);
                Ok(hash)
            },
        }
    }
}

/// What is stored under `key` is the compressed encoding of some content
/// whose hash is `key`, and it decompresses back to that content.
pub open spec fn holds_content(store: Map<Seq<char>, Seq<u8>>, key: Seq<char>) -> bool {
    &&& store.contains_key(key)
    &&& exists|e: Seq<u8>|
        #![trigger zlib_deflate(e)]
        content_id(e) == key && store[key] == zlib_deflate(e) && zlib_inflate(zlib_deflate(e))
            == Some(e)
}

/// Every key that holds content in `a` still does, with the same value, in `b`.
pub open spec fn keeps_content(a: Map<Seq<char>, Seq<u8>>, b: Map<Seq<char>, Seq<u8>>) -> bool {
    forall|k: Seq<char>| #[trigger] holds_content(a, k) ==> holds_content(b, k)
}

/// Storing content under its hash keeps what the store held and adds it.
pub proof fn lemma_store_content(store: Map<Seq<char>, Seq<u8>>, e: Seq<u8>)
    requires
        zlib_inflate(zlib_deflate(e)) == Some(e),
    ensures
        keeps_content(store, store.insert(content_id(e), zlib_deflate(e))),
        holds_content(store.insert(content_id(e), zlib_deflate(e)), content_id(e)),
{
    let after = store.insert(content_id(e), zlib_deflate(e));
    assert forall|k: Seq<char>| #[trigger] holds_content(store, k) implies holds_content(after, k) by {
        if k == content_id(e) {
            assert(after[k] == zlib_deflate(e));
        } else {
            let w = choose|w: Seq<u8>|
                #![trigger zlib_deflate(w)]
                content_id(w) == k && store[k] == zlib_deflate(w) && zlib_inflate(zlib_deflate(w)) == Some(w);
            assert(after[k] == zlib_deflate(w));
        }
    }
    assert(after[content_id(e)] == zlib_deflate(e));
}

/// Identical encodings have identical content hashes, and storing an object
/// a second time leaves the store as the first time left it.
pub proof fn content_addressing(store: Map<Seq<char>, Seq<u8>>, a: Seq<u8>, b: Seq<u8>)
    requires
        a == b,
    ensures
        content_id(a) == content_id(b),
        store.insert(content_id(a), zlib_deflate(a)).insert(content_id(b), zlib_deflate(b))
            == store.insert(content_id(a), zlib_deflate(a)),
{
    assert(store.insert(content_id(a), zlib_deflate(a)).insert(content_id(b), zlib_deflate(b))
        =~= store.insert(content_id(a), zlib_deflate(a)));
}

} // verus!
