//! Tree objects: directory listings whose entries are serialised in a
//! canonical order, so that equal listings always hash alike.
use crate::bytes::{
    all_digits, compare_bytes, copy_range, dec, digits_value, find_byte, find_from, is_digit,
    lemma_dec_digits, lemma_find_from_at, lemma_find_from_facts, lemma_lex_cmp_basics,
    lemma_lex_cmp_transitive, lex_cmp, push_all, push_decimal, utf8_to_string,
};
use crate::digest::{
    hex_decode, hex_encode, is_object_id, lemma_object_id_hex, lower_hex, unhex, valid_hex,
};
use crate::error::DecodeError;
use crate::header::{lemma_parse_header_encoding, parse_header, ObjectHeader, ObjectType};
use crate::traits::ToBytes;
use vstd::prelude::*;
use vstd::relations::{sorted_by, total_ordering};
use vstd::string::StringSliceAdditionalSpecFns;
use vstd::utf8::{encode_utf8, valid_utf8, decode_utf8, encode_utf8_decode_utf8};

verus! {

/// Mode of an entry that names a subdirectory.
pub const MODE_DIRECTORY: u32 = 40000;

/// Mode of an entry that names a regular file.
pub const MODE_FILE: u32 = 100644;

/// One line of a directory listing.
#[derive(Debug, Clone)]
pub struct TreeEntry {
    pub mode: u32,
    pub name: String,
    pub hash: String,
}

/// What a tree entry stands for.
pub struct EntryModel {
    pub mode: u32,
    pub name: Seq<char>,
    pub hash: Seq<char>,
}

impl View for TreeEntry {
    type V = EntryModel;

    open spec fn view(&self) -> EntryModel {
        EntryModel { mode: self.mode, name: self.name@, hash: self.hash@ }
    }
}

/// An entry can be encoded when its hash is hex text.
pub open spec fn entry_encodable(e: EntryModel) -> bool {
    valid_hex(encode_utf8(e.hash))
}

/// `"<mode> <name>\0"` followed by the raw bytes of the hash.
pub open spec fn entry_encoding(e: EntryModel) -> Seq<u8> {
    dec(e.mode as nat) + seq![32u8] + encode_utf8(e.name) + seq![0u8] + unhex(encode_utf8(e.hash))
}

/// An entry that decodes back to itself: a name without a null byte and a
/// hash in content-hash form.
pub open spec fn entry_is_valid(e: EntryModel) -> bool {
    &&& !encode_utf8(e.name).contains(0u8)
    &&& is_object_id(e.hash)
}

/// Reads one entry at the start of `b`: the entry and the bytes it takes.
/// The hash is the (at most twenty) bytes that follow the null byte.
pub open spec fn parse_entry(b: Seq<u8>) -> Result<(EntryModel, int), DecodeError> {
    match (find_from(b, 32u8, 0), find_from(b, 0u8, 0)) {
        (Some(sp), Some(nul)) => {
            if nul < sp {
                Err(DecodeError::InvalidEntry)
            } else {
                let m = b.subrange(0, sp);
                let nb = b.subrange(sp + 1, nul);
                if m.len() == 0 || !all_digits(m) || digits_value(m) > u32::MAX {
                    Err(DecodeError::InvalidMode)
                } else if !valid_utf8(nb) {
                    Err(DecodeError::InvalidName)
                } else {
                    let end = if nul + 21 <= b.len() {
                        nul + 21
                    } else {
                        b.len() as int
                    };
                    Ok(
                        (
                            EntryModel {
                                mode: digits_value(m) as u32,
                                name: decode_utf8(nb),
                                hash: lower_hex(b.subrange(nul + 1, end)),
                            },
                            end,
                        ),
                    )
                }
            }
        },
        _ => Err(DecodeError::InvalidEntry),
    }
}

/// Reads a decimal `u32` from digits.
fn parse_mode(m: &[u8]) -> (r: Option<u32>)
    ensures
        match r {
            Some(v) => m@.len() > 0 && all_digits(m@) && digits_value(m@) == v,
            None => m@.len() == 0 || !all_digits(m@) || digits_value(m@) > u32::MAX,
        },
{
    if m.len() == 0 {
        return None;
    }
    let mut v: u32 = 0;
    let mut i: usize = 0;
    assert(m@.subrange(0, 0) =~= Seq::<u8>::empty());
    while i < m.len()
        invariant
            i <= m@.len(),
            all_digits(m@.subrange(0, i as int)),
            v == digits_value(m@.subrange(0, i as int)),
        decreases m@.len() - i,
    {
        let c = m[i];
        let ghost prev = m@.subrange(0, i as int);
        let ghost next = m@.subrange(0, i + 1);
        assert(next.drop_last() =~= prev);
        if c < 48u8 || c > 57u8 {
            assert(!is_digit(m@[i as int]));
            return None;
        }
        assert(all_digits(next)) by {
            assert forall|j: int| 0 <= j < next.len() implies is_digit(#[trigger] next[j]) by {
                if j < i {
                    assert(next[j] == prev[j]);
                }
            }
        }
        match v.checked_mul(10) {
            Some(t) => match t.checked_add((c - 48u8) as u32) {
                Some(w) => {
                    v = w;
                },
                None => {
                    proof {
                        crate::header::lemma_digits_value_prefix(m@, i + 1);
                        assert(m@.subrange(0, m@.len() as int) =~= m@);
                    }
                    return None;
                },
            },
            None => {
                proof {
                    crate::header::lemma_digits_value_prefix(m@, i + 1);
                }
                return None;
            },
        }
        i = i + 1;
    }
    assert(m@.subrange(0, m@.len() as int) =~= m@);
    Some(v)
}

impl TreeEntry {
    /// Length of the entry's encoding.
    pub fn len(&self) -> (r: usize)
        requires
            entry_encodable(self@),
        ensures
            r == entry_encoding(self@).len(),
    {
        self.to_bytes().len()
    }

    /// Whether the entry's name is empty.
    pub fn is_empty(&self) -> (r: bool)
        ensures
            r == (self.name@.len() == 0),
    {
        self.name.as_str().is_empty()
    }

    /// Reads one entry at `data[start..]`, with the number of bytes it takes.
    pub fn parse_at(data: &[u8], start: usize) -> (r: Result<(TreeEntry, usize), DecodeError>)
        requires
            start <= data@.len(),
        ensures
            match r {
                Ok((e, n)) => parse_entry(data@.subrange(start as int, data@.len() as int))
                    == Ok::<(EntryModel, int), DecodeError>((e@, n as int)),
                Err(err) => parse_entry(data@.subrange(start as int, data@.len() as int))
                    == Err::<(EntryModel, int), DecodeError>(err),
            },
            r matches Ok((_, n)) ==> 0 < n && start + n <= data@.len(),
    {
        let ghost b = data@.subrange(start as int, data@.len() as int);
        let sp = find_byte(data, 32u8, start);
        let nul = find_byte(data, 0u8, start);
        proof {
            lemma_find_from_facts(data@, 32u8, start as int);
            lemma_find_from_facts(data@, 0u8, start as int);
            lemma_find_from_facts(b, 32u8, 0);
            lemma_find_from_facts(b, 0u8, 0);
            match find_from(data@, 32u8, start as int) {
                Some(k) => {
                    lemma_find_from_at(b, 32u8, 0, k - start);
                },
                None => {
                    if find_from(b, 32u8, 0) is Some {
                        let k = find_from(b, 32u8, 0)->0;
                        assert(data@[start + k] == b[k]);
                    }
                },
            }
            match find_from(data@, 0u8, start as int) {
                Some(k) => {
                    lemma_find_from_at(b, 0u8, 0, k - start);
                },
                None => {
                    if find_from(b, 0u8, 0) is Some {
                        let k = find_from(b, 0u8, 0)->0;
                        assert(data@[start + k] == b[k]);
                    }
                },
            }
        }
        let (sp, nul) = match (sp, nul) {
            (Some(s), Some(n)) => (s, n),
            _ => return Err(DecodeError::InvalidEntry),
        };
        if nul < sp {
            return Err(DecodeError::InvalidEntry);
        }
        let m = copy_range(data, start, sp);
        assert(m@ =~= b.subrange(0, sp - start));
        let mode = match parse_mode(m.as_slice()) {
            Some(v) => v,
            None => return Err(DecodeError::InvalidMode),
        };
        let nb = copy_range(data, sp + 1, nul);
        assert(nb@ =~= b.subrange(sp - start + 1, nul - start));
        let name = match utf8_to_string(nb) {
            Some(s) => s,
            None => return Err(DecodeError::InvalidName),
        };
        proof {
            encode_utf8_decode_utf8(name@);
        }
        let end = if data.len() - nul >= 21 {
            nul + 21
        } else {
            data.len()
        };
        let raw = copy_range(data, nul + 1, end);
        assert(raw@ =~= b.subrange(nul - start + 1, end - start));
        let hash = hex_encode(raw.as_slice());
        Ok((TreeEntry { mode, name, hash }, end - start))
    }

    /// Decodes one entry from the start of `value`.
    pub fn try_from(value: Vec<u8>) -> (r: Result<TreeEntry, DecodeError>)
        ensures
            match r {
                Ok(e) => parse_entry(value@) matches Ok((m, _)) && m == e@,
                Err(err) => parse_entry(value@) == Err::<(EntryModel, int), DecodeError>(err),
            },
    {
        assert(value@.subrange(0, value@.len() as int) =~= value@);
        match Self::parse_at(value.as_slice(), 0) {
            Ok((e, _)) => Ok(e),
            Err(err) => Err(err),
        }
    }
}

impl ToBytes for TreeEntry {
    open spec fn encodable(&self) -> bool {
        entry_encodable(self@)
    }

    open spec fn encoded(&self) -> Seq<u8> {
        entry_encoding(self@)
    }

    /// `"<mode> <name>\0"` followed by the twenty raw bytes of the hash.
    fn to_bytes(&self) -> (r: Vec<u8>) {
        let mut r: Vec<u8> = Vec::new();
        push_decimal(&mut r, self.mode as u64);
        r.push(32u8);
        push_all(&mut r, self.name.as_str().as_bytes());
        r.push(0u8);
        let raw = hex_decode(self.hash.as_str());
        match raw {
            Some(v) => {
                push_all(&mut r, v.as_slice());
            },
            None => {},
        }
        assert(r@ =~= entry_encoding(self@));
        r
    }
}

/// A valid entry, followed by anything, decodes back to itself.
pub proof fn lemma_entry_round_trip(e: EntryModel, tail: Seq<u8>)
    requires
        entry_is_valid(e),
    ensures
        parse_entry(entry_encoding(e) + tail) == Ok::<(EntryModel, int), DecodeError>(
            (e, entry_encoding(e).len() as int),
        ),
{
    let d = dec(e.mode as nat);
    let nb = encode_utf8(e.name);
    let h = unhex(encode_utf8(e.hash));
    lemma_dec_digits(e.mode as nat);
    lemma_object_id_hex(e.hash);
    encode_utf8_decode_utf8(e.name);
    vstd::utf8::encode_utf8_valid_utf8(e.name);
    let b = entry_encoding(e) + tail;
    let sp = d.len() as int;
    let nul = sp + 1 + nb.len();
    assert(b[sp] == 32u8);
    assert forall|j: int| 0 <= j < sp implies #[trigger] b[j] != 32u8 by {
        assert(b[j] == d[j]);
    }
    lemma_find_from_at(b, 32u8, 0, sp);
    assert(b[nul] == 0u8);
    assert forall|j: int| 0 <= j < nul implies #[trigger] b[j] != 0u8 by {
        if j < sp {
            assert(b[j] == d[j]);
        } else if j > sp {
            assert(b[j] == nb[j - sp - 1]);
        }
    }
    lemma_find_from_at(b, 0u8, 0, nul);
    assert(b.subrange(0, sp) =~= d);
    assert(b.subrange(sp + 1, nul) =~= nb);
    assert(b.subrange(nul + 1, nul + 21) =~= h);
}

/// The canonical order of entries: by the bytes of the name, then by the
/// hash text, then by mode.
pub open spec fn entry_le(a: EntryModel, b: EntryModel) -> bool {
    let c1 = lex_cmp(encode_utf8(a.name), encode_utf8(b.name));
    let c2 = lex_cmp(encode_utf8(a.hash), encode_utf8(b.hash));
    c1 < 0 || (c1 == 0 && (c2 < 0 || (c2 == 0 && a.mode <= b.mode)))
}

pub open spec fn entry_order() -> spec_fn(EntryModel, EntryModel) -> bool {
    |a: EntryModel, b: EntryModel| entry_le(a, b)
}

pub open spec fn entry_models(v: Seq<TreeEntry>) -> Seq<EntryModel> {
    v.map_values(|e: TreeEntry| e@)
}

/// The entries in canonical order.
pub open spec fn canonical_entries(es: Seq<EntryModel>) -> Seq<EntryModel> {
    es.sort_by(entry_order())
}

/// The entries' encodings, one after another.
pub open spec fn entries_encoding(es: Seq<EntryModel>) -> Seq<u8>
    decreases es.len(),
{
    if es.len() == 0 {
        Seq::empty()
    } else {
        entry_encoding(es[0]) + entries_encoding(es.drop_first())
    }
}

proof fn lemma_utf8_injective(a: Seq<char>, b: Seq<char>)
    requires
        encode_utf8(a) == encode_utf8(b),
    ensures
        a == b,
{
    encode_utf8_decode_utf8(a);
    encode_utf8_decode_utf8(b);
}

pub proof fn lemma_entry_order_total()
    ensures
        total_ordering(entry_order()),
{
    let r = entry_order();
    assert forall|x: EntryModel| #[trigger] r(x, x) by {
        lemma_lex_cmp_basics(encode_utf8(x.name), encode_utf8(x.name));
        lemma_lex_cmp_basics(encode_utf8(x.hash), encode_utf8(x.hash));
    }
    assert forall|x: EntryModel, y: EntryModel| #[trigger] r(x, y) && #[trigger] r(y, x) implies x
        == y by {
        lemma_lex_cmp_basics(encode_utf8(x.name), encode_utf8(y.name));
        lemma_lex_cmp_basics(encode_utf8(x.hash), encode_utf8(y.hash));
        lemma_utf8_injective(x.name, y.name);
        lemma_utf8_injective(x.hash, y.hash);
    }
    assert forall|x: EntryModel, y: EntryModel, z: EntryModel| #[trigger] r(x, y) && #[trigger] r(
        y,
        z,
    ) implies r(x, z) by {
        let (xn, yn, zn) = (encode_utf8(x.name), encode_utf8(y.name), encode_utf8(z.name));
        let (xh, yh, zh) = (encode_utf8(x.hash), encode_utf8(y.hash), encode_utf8(z.hash));
        lemma_lex_cmp_basics(xn, yn);
        lemma_lex_cmp_basics(yn, zn);
        lemma_lex_cmp_basics(xn, zn);
        lemma_lex_cmp_basics(xh, yh);
        lemma_lex_cmp_basics(yh, zh);
        lemma_lex_cmp_basics(xh, zh);
        if lex_cmp(xn, yn) < 0 && lex_cmp(yn, zn) < 0 {
            lemma_lex_cmp_transitive(xn, yn, zn);
        }
        if lex_cmp(xh, yh) < 0 && lex_cmp(yh, zh) < 0 {
            lemma_lex_cmp_transitive(xh, yh, zh);
        }
    }
    assert forall|x: EntryModel, y: EntryModel| #[trigger] r(x, y) || #[trigger] r(y, x) by {
        lemma_lex_cmp_basics(encode_utf8(x.name), encode_utf8(y.name));
        lemma_lex_cmp_basics(encode_utf8(x.hash), encode_utf8(y.hash));
    }
}

/// A sorted rearrangement of `es` is its canonical order.
pub proof fn lemma_canonical_unique(s: Seq<EntryModel>, es: Seq<EntryModel>)
    requires
        sorted_by(s, entry_order()),
        s.to_multiset() == es.to_multiset(),
    ensures
        s == canonical_entries(es),
{
    lemma_entry_order_total();
    es.lemma_sort_by_ensures(entry_order());
    vstd::seq_lib::lemma_sorted_unique(s, es.sort_by(entry_order()), entry_order());
}

pub proof fn lemma_entries_encoding_push(es: Seq<EntryModel>, e: EntryModel)
    ensures
        entries_encoding(es.push(e)) == entries_encoding(es) + entry_encoding(e),
    decreases es.len(),
{
    if es.len() == 0 {
        assert(es.push(e).drop_first() =~= Seq::<EntryModel>::empty());
        assert(es.push(e)[0] == e);
        assert(entries_encoding(es.push(e).drop_first()) == Seq::<u8>::empty());
        assert(entries_encoding(es.push(e)) =~= entry_encoding(e));
    } else {
        assert(es.push(e).drop_first() =~= es.drop_first().push(e));
        lemma_entries_encoding_push(es.drop_first(), e);
        assert(entries_encoding(es.push(e)) =~= entries_encoding(es) + entry_encoding(e));
    }
}

fn copy_entry(e: &TreeEntry) -> (r: TreeEntry)
    ensures
        r@ == e@,
{
    TreeEntry { mode: e.mode, name: e.name.clone(), hash: e.hash.clone() }
}

/// Whether `a` comes no later than `b` in the canonical order.
fn entry_precedes(a: &TreeEntry, b: &TreeEntry) -> (r: bool)
    ensures
        r == entry_le(a@, b@),
{
    let c1 = compare_bytes(a.name.as_str().as_bytes(), b.name.as_str().as_bytes());
    if c1 != 0 {
        return c1 < 0;
    }
    let c2 = compare_bytes(a.hash.as_str().as_bytes(), b.hash.as_str().as_bytes());
    if c2 != 0 {
        return c2 < 0;
    }
    a.mode <= b.mode
}

/// The entries in canonical order.
pub fn sort_entries(entries: &Vec<TreeEntry>) -> (r: Vec<TreeEntry>)
    ensures
        entry_models(r@) == canonical_entries(entry_models(entries@)),
        entry_models(r@).to_multiset() == entry_models(entries@).to_multiset(),
{
    let mut sorted: Vec<TreeEntry> = Vec::new();
    let mut i: usize = 0;
    proof {
        lemma_entry_order_total();
        assert(entry_models(entries@.subrange(0, 0)) =~= Seq::<EntryModel>::empty());
        assert(entry_models(sorted@) =~= Seq::<EntryModel>::empty());
    }
    while i < entries.len()
        invariant
            i <= entries@.len(),
            total_ordering(entry_order()),
            sorted_by(entry_models(sorted@), entry_order()),
            entry_models(sorted@).to_multiset() == entry_models(
                entries@.subrange(0, i as int),
            ).to_multiset(),
        decreases entries@.len() - i,
    {
        let e = &entries[i];
        let mut pos: usize = 0;
        let mut found = false;
        while !found && pos < sorted.len()
            invariant
                pos <= sorted@.len(),
                forall|k: int| 0 <= k < pos ==> entry_le(#[trigger] sorted@[k]@, e@),
                found ==> pos < sorted@.len() && !entry_le(sorted@[pos as int]@, e@),
            decreases sorted@.len() - pos + (if found { 0int } else { 1int }),
        {
            if entry_precedes(&sorted[pos], e) {
                pos = pos + 1;
            } else {
                found = true;
            }
        }
        let ghost s = entry_models(sorted@);
        let ghost old_sorted = sorted@;
        assert(pos < s.len() ==> s[pos as int] == sorted@[pos as int]@);
        sorted.insert(pos, copy_entry(e));
        proof {
            let t = entry_models(sorted@);
            assert(t =~= s.insert(pos as int, e@));
            if pos < s.len() {
                assert(!entry_le(s[pos as int], e@));
                assert(!entry_order()(s[pos as int], e@));
                assert(entry_order()(s[pos as int], e@) || entry_order()(e@, s[pos as int]));
                assert(entry_order()(e@, s[pos as int]));
            }
            assert forall|a: int, b: int| 0 <= a < b < t.len() implies (entry_order())(
                #[trigger] t[a],
                #[trigger] t[b],
            ) by {
                if b == pos {
                    assert(t[a] == old_sorted[a]@);
                } else if a == pos {
                    assert(t[b] == s[b - 1]);
                    if b - 1 > pos {
                        assert(entry_order()(s[pos as int], s[b - 1]));
                    }
                } else {
                    let a0 = if a < pos { a } else { a - 1 };
                    let b0 = if b < pos { b } else { b - 1 };
                    assert(t[a] == s[a0] && t[b] == s[b0]);
                }
            }
            vstd::seq_lib::to_multiset_insert(s, pos as int, e@);
            let pre = entry_models(entries@.subrange(0, i as int));
            assert(entry_models(entries@.subrange(0, i + 1)) =~= pre.push(e@));
            vstd::seq_lib::to_multiset_build(pre, e@);
        }
        i = i + 1;
    }
    proof {
        assert(entries@.subrange(0, entries@.len() as int) =~= entries@);
        lemma_canonical_unique(entry_models(sorted@), entry_models(entries@));
    }
    sorted
}

/// Reads entries from `b[i..]` until the end.
pub open spec fn parse_entries(b: Seq<u8>, i: int) -> Result<Seq<EntryModel>, DecodeError>
    decreases b.len() - i,
{
    if i < 0 || i >= b.len() {
        Ok(Seq::empty())
    } else {
        match parse_entry(b.subrange(i, b.len() as int)) {
            Err(e) => Err(e),
            Ok((e, n)) => {
                if n <= 0 || i + n > b.len() {
                    Err(DecodeError::InvalidEntry)
                } else {
                    match parse_entries(b, i + n) {
                        Err(x) => Err(x),
                        Ok(rest) => Ok(seq![e] + rest),
                    }
                }
            },
        }
    }
}

/// Reads a tree: its header, then entries up to the end.
pub open spec fn parse_tree(b: Seq<u8>) -> Result<(ObjectHeader, Seq<EntryModel>), DecodeError> {
    match parse_header(b) {
        Err(e) => Err(e),
        Ok((h, n)) => match parse_entries(b, n) {
            Err(e) => Err(e),
            Ok(es) => Ok((h, es)),
        },
    }
}

pub open spec fn prepend_entries(
    p: Seq<EntryModel>,
    r: Result<Seq<EntryModel>, DecodeError>,
) -> Result<Seq<EntryModel>, DecodeError> {
    match r {
        Ok(s) => Ok(p + s),
        Err(e) => Err(e),
    }
}

/// Valid entries laid out after any prefix decode back to themselves.
pub proof fn lemma_parse_entries_encoding(p: Seq<u8>, es: Seq<EntryModel>)
    requires
        forall|k: int| 0 <= k < es.len() ==> entry_is_valid(#[trigger] es[k]),
    ensures
        parse_entries(p + entries_encoding(es), p.len() as int) == Ok::<
            Seq<EntryModel>,
            DecodeError,
        >(es),
    decreases es.len(),
{
    let b = p + entries_encoding(es);
    if es.len() == 0 {
        assert(es =~= Seq::<EntryModel>::empty());
    } else {
        let e = es[0];
        let rest = es.drop_first();
        let ee = entry_encoding(e);
        assert(entry_is_valid(e));
        assert(b.subrange(p.len() as int, b.len() as int) =~= ee + entries_encoding(rest));
        lemma_entry_round_trip(e, entries_encoding(rest));
        assert forall|k: int| 0 <= k < rest.len() implies entry_is_valid(#[trigger] rest[k]) by {
            assert(rest[k] == es[k + 1]);
        }
        lemma_parse_entries_encoding(p + ee, rest);
        assert(b =~= (p + ee) + entries_encoding(rest));
        assert(ee.len() > 0);
        assert(seq![e] + rest =~= es);
    }
}

/// A directory listing behind a header.
#[derive(Debug)]
pub struct TreeObject {
    pub header: ObjectHeader,
    pub entries: Vec<TreeEntry>,
}

impl TreeObject {
    pub open spec fn models(&self) -> Seq<EntryModel> {
        entry_models(self.entries@)
    }

    /// A tree that decodes back to itself: a tree header whose size is the
    /// length of the entries, entries in canonical order, each valid.
    pub open spec fn is_valid(&self) -> bool {
        &&& self.header.object_type == ObjectType::Tree
        &&& self.header.size == entries_encoding(self.models()).len()
        &&& sorted_by(self.models(), entry_order())
        &&& forall|k: int| 0 <= k < self.models().len() ==> entry_is_valid(#[trigger] self.models()[k])
    }

    /// A tree holding `entries` in canonical order, its header giving their
    /// encoded length.
    pub fn from_entries(entries: Vec<TreeEntry>) -> (r: TreeObject)
        requires
            forall|k: int| 0 <= k < entries@.len() ==> entry_encodable(#[trigger] entries@[k]@),
        ensures
            r.models() == canonical_entries(entry_models(entries@)),
            r.header == (ObjectHeader {
                object_type: ObjectType::Tree,
                size: entries_encoding(r.models()).len() as usize,
            }),
            entries_encoding(r.models()).len() <= usize::MAX,
            forall|k: int| 0 <= k < r.entries@.len() ==> entry_encodable(#[trigger] r.entries@[k]@),
    {
        let sorted = sort_entries(&entries);
        proof {
            lemma_models_encodable(entries@, sorted@);
        }
        let body = encode_entries(&sorted);
        TreeObject {
            header: ObjectHeader { object_type: ObjectType::Tree, size: body.len() },
            entries: sorted,
        }
    }

    /// Decodes a tree object.
    pub fn try_from(data: Vec<u8>) -> (r: Result<TreeObject, DecodeError>)
        ensures
            match r {
                Ok(t) => parse_tree(data@) == Ok::<(ObjectHeader, Seq<EntryModel>), DecodeError>(
                    (t.header, t.models()),
                ),
                Err(e) => parse_tree(data@) == Err::<(ObjectHeader, Seq<EntryModel>), DecodeError>(
                    e,
                ),
            },
    {
        let (header, n) = match ObjectHeader::parse_prefix(data.as_slice()) {
            Ok(p) => p,
            Err(e) => return Err(e),
        };
        let mut entries: Vec<TreeEntry> = Vec::new();
        let mut i = n;
        assert(entry_models(entries@) + Seq::<EntryModel>::empty() =~= entry_models(entries@));
        proof {
            let pe = parse_entries(data@, n as int);
            match pe {
                Ok(s) => {
                    assert(entry_models(entries@) + s =~= s);
                },
                Err(_) => {},
            }
        }
        while i < data.len()
            invariant
                n <= i <= data@.len(),
                parse_header(data@) == Ok::<(ObjectHeader, int), DecodeError>((header, n as int)),
                parse_entries(data@, n as int) == prepend_entries(
                    entry_models(entries@),
                    parse_entries(data@, i as int),
                ),
            decreases data@.len() - i,
        {
            match TreeEntry::parse_at(data.as_slice(), i) {
                Err(e) => {
                    assert(parse_entries(data@, i as int) == Err::<Seq<EntryModel>, DecodeError>(e));
                    return Err(e);
                },
                Ok((e, k)) => {
                    let ghost before = entry_models(entries@);
                    entries.push(e);
                    proof {
                        assert(entry_models(entries@) =~= before.push(e@));
                        match parse_entries(data@, i + k) {
                            Ok(rest) => {
                                assert(before + (seq![e@] + rest) =~= before.push(e@) + rest);
                            },
                            Err(_) => {},
                        }
                    }
                    i = i + k;
                },
            }
        }
        assert(entry_models(entries@) + Seq::<EntryModel>::empty() =~= entry_models(entries@));
        Ok(TreeObject { header, entries })
    }
}

proof fn lemma_models_encodable(entries: Seq<TreeEntry>, sorted: Seq<TreeEntry>)
    requires
        forall|k: int| 0 <= k < entries.len() ==> entry_encodable(#[trigger] entries[k]@),
        entry_models(sorted).to_multiset() == entry_models(entries).to_multiset(),
    ensures
        forall|k: int| 0 <= k < sorted.len() ==> entry_encodable(#[trigger] sorted[k]@),
{
    assert forall|k: int| 0 <= k < sorted.len() implies entry_encodable(#[trigger] sorted[k]@) by {
        let m = entry_models(sorted);
        assert(m[k] == sorted[k]@);
        vstd::seq_lib::to_multiset_contains(m, m[k]);
        assert(m.contains(m[k]));
        assert(m.to_multiset().count(m[k]) > 0);
        vstd::seq_lib::to_multiset_contains(entry_models(entries), m[k]);
        let j = choose|j: int| 0 <= j < entries.len() && entry_models(entries)[j] == m[k];
        assert(entry_models(entries)[j] == entries[j]@);
    }
}

/// The encodings of `entries`, one after another.
fn encode_entries(entries: &Vec<TreeEntry>) -> (r: Vec<u8>)
    requires
        forall|k: int| 0 <= k < entries@.len() ==> entry_encodable(#[trigger] entries@[k]@),
    ensures
        r@ == entries_encoding(entry_models(entries@)),
{
    let mut r: Vec<u8> = Vec::new();
    let mut i: usize = 0;
    assert(entry_models(entries@.subrange(0, 0)) =~= Seq::<EntryModel>::empty());
    while i < entries.len()
        invariant
            i <= entries@.len(),
            forall|k: int| 0 <= k < entries@.len() ==> entry_encodable(#[trigger] entries@[k]@),
            r@ == entries_encoding(entry_models(entries@.subrange(0, i as int))),
        decreases entries@.len() - i,
    {
        let b = entries[i].to_bytes();
        push_all(&mut r, b.as_slice());
        proof {
            let pre = entry_models(entries@.subrange(0, i as int));
            assert(entry_models(entries@.subrange(0, i + 1)) =~= pre.push(entries@[i as int]@));
            lemma_entries_encoding_push(pre, entries@[i as int]@);
        }
        i = i + 1;
    }
    assert(entries@.subrange(0, entries@.len() as int) =~= entries@);
    r
}

impl ToBytes for TreeObject {
    open spec fn encodable(&self) -> bool {
        forall|k: int| 0 <= k < self.entries@.len() ==> entry_encodable(#[trigger] self.entries@[k]@)
    }

    open spec fn encoded(&self) -> Seq<u8> {
        self.header.encoding() + entries_encoding(canonical_entries(self.models()))
    }

    /// The header followed by the entries in canonical order.
    fn to_bytes(&self) -> (r: Vec<u8>) {
        let sorted = sort_entries(&self.entries);
        proof {
            lemma_models_encodable(self.entries@, sorted@);
        }
        let mut r = self.header.to_bytes();
        let body = encode_entries(&sorted);
        push_all(&mut r, body.as_slice());
        r
    }
}

/// Decoding the encoding of a valid tree gives the tree back.
pub proof fn tree_round_trip(t: TreeObject)
    requires
        t.is_valid(),
    ensures
        parse_tree(t.encoded()) == Ok::<(ObjectHeader, Seq<EntryModel>), DecodeError>(
            (t.header, t.models()),
        ),
{
    lemma_canonical_unique(t.models(), t.models());
    let body = entries_encoding(t.models());
    lemma_parse_header_encoding(t.header, body);
    lemma_parse_entries_encoding(t.header.encoding(), t.models());
}

/// Two trees with the same header and the same entries, in whatever order,
/// have the same encoding and so the same content hash.
pub proof fn tree_encoding_ignores_entry_order(a: TreeObject, b: TreeObject)
    requires
        a.header == b.header,
        a.models().to_multiset() == b.models().to_multiset(),
    ensures
        a.encoded() == b.encoded(),
        crate::digest::content_id(a.encoded()) == crate::digest::content_id(b.encoded()),
{
    lemma_entry_order_total();
    a.models().lemma_sort_by_ensures(entry_order());
    lemma_canonical_unique(canonical_entries(a.models()), b.models());
}

} // verus!
