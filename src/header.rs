//! The header that opens every stored object: `"<kind> <size>\0"`.
use crate::bytes::{all_digits, dec, digits_value, is_digit, lemma_dec_digits, push_decimal};
use crate::error::DecodeError;
use crate::traits::ToBytes;
use vstd::prelude::*;

verus! {

/// The three kinds of object.
#[derive(PartialEq, Eq, Structural, Clone, Copy, Debug)]
pub enum ObjectType {
    Blob,
    Tree,
    Commit,
}

impl ObjectType {
    /// The kind's keyword as ASCII bytes.
    pub open spec fn keyword(self) -> Seq<u8> {
        match self {
            ObjectType::Blob => seq![98u8, 108, 111, 98],
            ObjectType::Tree => seq![116u8, 114, 101, 101],
            ObjectType::Commit => seq![99u8, 111, 109, 109, 105, 116],
        }
    }

    /// The kind's keyword as text.
    pub open spec fn name(self) -> Seq<char> {
        match self {
            ObjectType::Blob => seq!['b', 'l', 'o', 'b'],
            ObjectType::Tree => seq!['t', 'r', 'e', 'e'],
            ObjectType::Commit => seq!['c', 'o', 'm', 'm', 'i', 't'],
        }
    }

    pub fn keyword_bytes(&self) -> (r: Vec<u8>)
        ensures
            r@ == self.keyword(),
    {
        let r = match self {
            ObjectType::Blob => vec![98u8, 108, 111, 98],
            ObjectType::Tree => vec![116u8, 114, 101, 101],
            ObjectType::Commit => vec![99u8, 111, 109, 109, 105, 116],
        };
        assert(r@ =~= self.keyword());
        r
    }

    /// Length of the keyword in bytes.
    pub fn len(&self) -> (r: usize)
        ensures
            r == self.keyword().len(),
    {
        match self {
            ObjectType::Blob => 4,
            ObjectType::Tree => 4,
            ObjectType::Commit => 6,
        }
    }

    /// Whether the keyword is empty; it never is.
    pub fn is_empty(&self) -> (r: bool)
        ensures
            r == (self.keyword().len() == 0),
            !r,
    {
        false
    }

    /// The keyword as a `String`.
    pub fn to_string(&self) -> (r: String)
        ensures
            r@ == self.name(),
    {
        let s = match self {
            ObjectType::Blob => "blob",
            ObjectType::Tree => "tree",
            ObjectType::Commit => "commit",
        };
        proof {
            reveal_strlit("blob");
            reveal_strlit("tree");
            reveal_strlit("commit");
        }
        let r = s.to_owned();
        assert(r@ =~= self.name());
        r
    }
}

/// The kind and payload size of an object.
#[derive(PartialEq, Eq, Structural, Clone, Copy, Debug)]
pub struct ObjectHeader {
    pub object_type: ObjectType,
    pub size: usize,
}

/// `"<kind> <size>\0"` as bytes.
pub open spec fn header_encoding(t: ObjectType, size: nat) -> Seq<u8> {
    t.keyword() + seq![32u8] + dec(size) + seq![0u8]
}

/// The kind whose keyword opens `b`, trying blob, tree and commit in turn.
pub open spec fn keyword_of(b: Seq<u8>) -> Option<ObjectType> {
    if b.len() >= 4 && b.subrange(0, 4) == ObjectType::Blob.keyword() {
        Some(ObjectType::Blob)
    } else if b.len() >= 4 && b.subrange(0, 4) == ObjectType::Tree.keyword() {
        Some(ObjectType::Tree)
    } else if b.len() >= 6 && b.subrange(0, 6) == ObjectType::Commit.keyword() {
        Some(ObjectType::Commit)
    } else {
        None
    }
}

/// The index of the first null byte at or after `i` (the length of `b` when
/// there is none), when every byte before it (from `i` on) is a digit.
pub open spec fn digits_end(b: Seq<u8>, i: int) -> Option<int>
    decreases b.len() - i,
{
    if i < 0 {
        None
    } else if i >= b.len() {
        Some(b.len() as int)
    } else if b[i] == 0 {
        Some(i)
    } else if is_digit(b[i]) {
        digits_end(b, i + 1)
    } else {
        None
    }
}

/// Reads a header at the start of `b`: the header and the number of bytes
/// it takes.  After the keyword one separator byte is skipped; the size is
/// the digits up to the first null byte or the end (none read as 0).
pub open spec fn parse_header(b: Seq<u8>) -> Result<(ObjectHeader, int), DecodeError> {
    match keyword_of(b) {
        None => Err(DecodeError::InvalidHeader),
        Some(t) => {
            let p: int = if t.keyword().len() + 1 <= b.len() {
                t.keyword().len() + 1int
            } else {
                b.len() as int
            };
            match digits_end(b, p) {
                None => Err(DecodeError::InvalidHeader),
                Some(z) => {
                    let v = digits_value(b.subrange(p, z));
                    if v > usize::MAX {
                        Err(DecodeError::InvalidSize)
                    } else {
                        Ok(
                            (
                                ObjectHeader { object_type: t, size: v as usize },
                                if z < b.len() {
                                    z + 1
                                } else {
                                    z
                                },
                            ),
                        )
                    }
                },
            }
        },
    }
}

pub proof fn lemma_digits_end_of_digits(b: Seq<u8>, i: int, z: int)
    requires
        0 <= i <= z < b.len(),
        b[z] == 0,
        forall|j: int| i <= j < z ==> is_digit(#[trigger] b[j]),
    ensures
        digits_end(b, i) == Some(z),
    decreases z - i,
{
    if i < z {
        lemma_digits_end_of_digits(b, i + 1, z);
    }
}

/// A longer run of digits is worth at least as much as its prefix.
pub proof fn lemma_digits_value_prefix(s: Seq<u8>, k: int)
    requires
        0 <= k <= s.len(),
    ensures
        digits_value(s.subrange(0, k)) <= digits_value(s),
    decreases s.len(),
{
    if k < s.len() {
        assert(s.drop_last() =~= s.subrange(0, s.len() - 1));
        assert(s.drop_last().subrange(0, k) =~= s.subrange(0, k));
        lemma_digits_value_prefix(s.drop_last(), k);
    } else {
        assert(s.subrange(0, k) =~= s);
    }
}

pub proof fn lemma_parse_header_encoding(h: ObjectHeader, rest: Seq<u8>)
    ensures
        parse_header(h.encoding() + rest) == Ok::<(ObjectHeader, int), DecodeError>(
            (h, h.encoding().len() as int),
        ),
{
    let b = h.encoding() + rest;
    let t = h.object_type;
    let k = t.keyword();
    let d = dec(h.size as nat);
    lemma_dec_digits(h.size as nat);
    assert(b.subrange(0, k.len() as int) =~= k);
    let p = k.len() as int;
    let z = p + 1 + d.len();
    assert forall|j: int| p + 1 <= j < z implies is_digit(#[trigger] b[j]) by {
        assert(b[j] == d[j - p - 1]);
    }
    assert(b[z] == 0u8);
    lemma_digits_end_of_digits(b, p + 1, z);
    assert(b.subrange(p + 1, z) =~= d);
    assert(ObjectType::Blob.keyword() != ObjectType::Tree.keyword()) by {
        assert(ObjectType::Blob.keyword()[0] != ObjectType::Tree.keyword()[0]);
    }
    if t != ObjectType::Blob {
        assert(b.subrange(0, 4)[0] != ObjectType::Blob.keyword()[0]);
    }
    if t == ObjectType::Commit {
        assert(b.subrange(0, 4)[0] != ObjectType::Tree.keyword()[0]);
    }
}

impl ObjectHeader {
    pub open spec fn encoding(self) -> Seq<u8> {
        header_encoding(self.object_type, self.size as nat)
    }

    /// Length in bytes of the header's encoding.
    pub fn header_size(&self) -> (r: usize)
        ensures
            r == self.encoding().len(),
    {
        self.to_bytes().len()
    }

    /// Reads the header that opens `data`, with the number of bytes it takes.
    pub fn parse_prefix(data: &[u8]) -> (r: Result<(ObjectHeader, usize), DecodeError>)
        ensures
            match r {
                Ok((h, n)) => parse_header(data@) == Ok::<(ObjectHeader, int), DecodeError>(
                    (h, n as int),
                ),
                Err(e) => parse_header(data@) == Err::<(ObjectHeader, int), DecodeError>(e),
            },
            r matches Ok((_, n)) ==> n <= data@.len(),
    {
        let b = Ghost(data@);
        let object_type = if Self::starts_with_keyword(data, &ObjectType::Blob) {
            ObjectType::Blob
        } else if Self::starts_with_keyword(data, &ObjectType::Tree) {
            ObjectType::Tree
        } else if Self::starts_with_keyword(data, &ObjectType::Commit) {
            ObjectType::Commit
        } else {
            return Err(DecodeError::InvalidHeader);
        };
        assert(keyword_of(b@) == Some(object_type));
        let k = object_type.len();
        let start = if data.len() - k >= 1 {
            k + 1
        } else {
            data.len()
        };
        let mut i = start;
        let mut size: usize = 0;
        let mut overflow = false;
        assert(b@.subrange(start as int, start as int) =~= Seq::<u8>::empty());
        while i < data.len() && data[i] != 0
            invariant
                start <= i <= data@.len(),
                k == object_type.keyword().len(),
                start == (if k + 1 <= data@.len() { k + 1 } else { data@.len() as int }),
                keyword_of(data@) == Some(object_type),
                forall|j: int| start <= j < i ==> is_digit(#[trigger] data@[j]),
                digits_end(data@, start as int) == digits_end(data@, i as int),
                !overflow ==> size == digits_value(data@.subrange(start as int, i as int)),
                overflow ==> digits_value(data@.subrange(start as int, i as int)) > usize::MAX,
            decreases data@.len() - i,
        {
            let c = data[i];
            if c < 48u8 || c > 57u8 {
                assert(digits_end(data@, i as int) is None);
                return Err(DecodeError::InvalidHeader);
            }
            assert(digits_end(data@, i as int) == digits_end(data@, i + 1));
            let ghost prev = data@.subrange(start as int, i as int);
            let ghost next = data@.subrange(start as int, i + 1);
            assert(next.drop_last() =~= prev);
            if !overflow {
                match size.checked_mul(10) {
                    Some(m) => match m.checked_add((c - 48u8) as usize) {
                        Some(v) => {
                            size = v;
                        },
                        None => {
                            overflow = true;
                        },
                    },
                    None => {
                        overflow = true;
                    },
                }
            }
            i = i + 1;
        }
        assert(digits_end(data@, i as int) == Some(i as int));
        if overflow {
            return Err(DecodeError::InvalidSize);
        }
        let consumed = if i < data.len() {
            i + 1
        } else {
            i
        };
        Ok((ObjectHeader { object_type, size }, consumed))
    }

    fn starts_with_keyword(data: &[u8], t: &ObjectType) -> (r: bool)
        ensures
            r == (data@.len() >= t.keyword().len() && data@.subrange(0, t.keyword().len() as int)
                == t.keyword()),
    {
        let k = t.keyword_bytes();
        if data.len() < k.len() {
            return false;
        }
        let mut i: usize = 0;
        while i < k.len()
            invariant
                i <= k@.len() <= data@.len(),
                k@ == t.keyword(),
                forall|j: int| 0 <= j < i ==> data@[j] == k@[j],
            decreases k@.len() - i,
        {
            if data[i] != k[i] {
                assert(data@.subrange(0, k@.len() as int)[i as int] != k@[i as int]);
                return false;
            }
            i = i + 1;
        }
        assert(data@.subrange(0, k@.len() as int) =~= k@);
        true
    }

    /// Decodes a header from the start of `value`.
    pub fn try_from(value: Vec<u8>) -> (r: Result<ObjectHeader, DecodeError>)
        ensures
            match r {
                Ok(h) => parse_header(value@) matches Ok((g, _)) && g == h,
                Err(e) => parse_header(value@) == Err::<(ObjectHeader, int), DecodeError>(e),
            },
    {
        match Self::parse_prefix(value.as_slice()) {
            Ok((h, _)) => Ok(h),
            Err(e) => Err(e),
        }
    }
}

impl ToBytes for ObjectHeader {
    open spec fn encodable(&self) -> bool {
        true
    }

    open spec fn encoded(&self) -> Seq<u8> {
        self.encoding()
    }

    /// The header's encoding: `"<kind> <size>\0"`.
    fn to_bytes(&self) -> (r: Vec<u8>) {
        let mut r = self.object_type.keyword_bytes();
        r.push(32u8);
        push_decimal(&mut r, self.size as u64);
        r.push(0u8);
        assert(r@ =~= self.encoding());
        r
    }
}

} // verus!
