//! Refs: named pointers to objects, possibly through other refs, and HEAD.
use crate::error::RepoError;
use crate::store::FileMap;
use crate::text::{
    find_char, starts_with, text_find_char, text_starts_with, trim, trim_end, trim_start, trim_text,
};
use vstd::prelude::*;
use vstd::string::{StrSliceExecFns, StringSliceAdditionalSpecFns};
use vstd::utf8::{decode_utf8, encode_utf8, encode_utf8_decode_utf8, valid_utf8};

verus! {

/// Ref files keyed by their path under the metadata directory
/// (`refs/heads/main`).
pub type RefStore = FileMap;

/// `"ref:"`, which opens an indirection line.
pub open spec fn indirection_mark() -> Seq<char> {
    seq!['r', 'e', 'f', ':']
}

/// `"ref: "`, which opens HEAD.
pub open spec fn head_mark() -> Seq<char> {
    seq!['r', 'e', 'f', ':', ' ']
}

/// `"refs/"`, which opens every ref path.
pub open spec fn refs_root() -> Seq<char> {
    seq!['r', 'e', 'f', 's', '/']
}

/// What a ref file's text points to: for `"ref: <path>"` the path (up to
/// any further colon), trimmed; otherwise the whole text, trimmed.
pub open spec fn parse_ref_content(c: Seq<char>) -> Seq<char> {
    if starts_with(c, indirection_mark()) {
        trim(c.subrange(4, find_char(c, ':', 4)))
    } else {
        trim(c)
    }
}

/// The bytes of the ref file at `path`; a missing file reads as empty.
pub open spec fn ref_content(refs: Map<Seq<char>, Seq<u8>>, path: Seq<char>) -> Seq<u8> {
    if refs.contains_key(path) {
        refs[path]
    } else {
        Seq::empty()
    }
}

/// What the ref at `path` points to.
pub open spec fn ref_value(refs: Map<Seq<char>, Seq<u8>>, path: Seq<char>) -> Result<
    Seq<char>,
    RepoError,
> {
    let bytes = ref_content(refs, path);
    if !valid_utf8(bytes) {
        Err(RepoError::InvalidRef)
    } else {
        Ok(parse_ref_content(decode_utf8(bytes)))
    }
}

/// Follows refs from `path`, taking at most `hops` indirections.
pub open spec fn resolve_ref(refs: Map<Seq<char>, Seq<u8>>, path: Seq<char>, hops: nat) -> Result<
    Seq<char>,
    RepoError,
>
    decreases hops,
{
    match ref_value(refs, path) {
        Err(e) => Err(e),
        Ok(t) => {
            if starts_with(t, refs_root()) {
                if hops == 0 {
                    Err(RepoError::CyclicRef)
                } else {
                    resolve_ref(refs, trim(t), (hops - 1) as nat)
                }
            } else {
                Ok(t)
            }
        },
    }
}

/// The ref at `from` points to the ref at `to`.
pub open spec fn points_to(refs: Map<Seq<char>, Seq<u8>>, from: Seq<char>, to: Seq<char>) -> bool {
    ref_value(refs, from) matches Ok(t) && starts_with(t, refs_root()) && trim(t) == to
}

/// Following a chain of refs, each pointing to the next, reaches the value
/// at its end in as many hops as the chain has links, and a value that is
/// not a ref path comes back unchanged.
pub proof fn ref_chain_resolves(
    refs: Map<Seq<char>, Seq<u8>>,
    chain: Seq<Seq<char>>,
    value: Seq<char>,
    hops: nat,
)
    requires
        chain.len() >= 1,
        hops + 1 >= chain.len(),
        forall|i: int| 0 <= i < chain.len() - 1 ==> points_to(refs, #[trigger] chain[i], chain[i + 1]),
        ref_value(refs, chain.last()) == Ok::<Seq<char>, RepoError>(value),
        !starts_with(value, refs_root()),
    ensures
        resolve_ref(refs, chain[0], hops) == Ok::<Seq<char>, RepoError>(value),
    decreases chain.len(),
{
    if chain.len() > 1 {
        let rest = chain.drop_first();
        assert(points_to(refs, chain[0], chain[1]));
        assert(rest[0] == chain[1]);
        assert(rest.last() == chain.last());
        assert forall|i: int| 0 <= i < rest.len() - 1 implies points_to(refs, #[trigger] rest[i], rest[i + 1]) by {
            assert(points_to(refs, chain[i + 1], chain[i + 2]));
        }
        ref_chain_resolves(refs, rest, value, (hops - 1) as nat);
    }
}

/// A ref that points to another ref has a file.
proof fn lemma_pointing_ref_exists(refs: Map<Seq<char>, Seq<u8>>, from: Seq<char>, to: Seq<char>)
    requires
        points_to(refs, from, to),
    ensures
        refs.contains_key(from),
{
    if !refs.contains_key(from) {
        let empty = Seq::<u8>::empty();
        assert(ref_content(refs, from) == empty);
        assert(decode_utf8(empty) == Seq::<char>::empty());
        let nothing = Seq::<char>::empty();
        assert(!starts_with(nothing, indirection_mark()));
        assert(trim_start(nothing) == nothing);
        assert(trim_end(nothing) == nothing);
        assert(parse_ref_content(nothing) == nothing);
        assert(!starts_with(nothing, refs_root()));
    }
}

/// A chain of distinct refs, each pointing to the next, ends in a value
/// that resolution reaches within its allowance of one hop per ref file.
pub proof fn distinct_ref_chain_resolves(
    refs: Map<Seq<char>, Seq<u8>>,
    chain: Seq<Seq<char>>,
    value: Seq<char>,
)
    requires
        refs.dom().finite(),
        chain.len() >= 1,
        chain.no_duplicates(),
        forall|i: int| 0 <= i < chain.len() - 1 ==> points_to(refs, #[trigger] chain[i], chain[i + 1]),
        ref_value(refs, chain.last()) == Ok::<Seq<char>, RepoError>(value),
        !starts_with(value, refs_root()),
    ensures
        resolve_ref(refs, chain[0], refs.len()) == Ok::<Seq<char>, RepoError>(value),
{
    let links = chain.drop_last();
    assert(links.no_duplicates()) by {
        assert forall|i: int, j: int| 0 <= i < links.len() && 0 <= j < links.len() && i != j implies links[i] != links[j] by {
            assert(links[i] == chain[i] && links[j] == chain[j]);
        }
    }
    assert(links.to_set().subset_of(refs.dom())) by {
        assert forall|k: Seq<char>| links.to_set().contains(k) implies refs.dom().contains(k) by {
            let i = choose|i: int| 0 <= i < links.len() && links[i] == k;
            assert(points_to(refs, chain[i], chain[i + 1]));
            lemma_pointing_ref_exists(refs, chain[i], chain[i + 1]);
        }
    }
    links.unique_seq_to_set();
    vstd::set_lib::lemma_len_subset(links.to_set(), refs.dom());
    ref_chain_resolves(refs, chain, value, refs.len());
}

/// A ref, named by its path under the metadata directory.
#[derive(Debug)]
pub struct Ref(pub String);

impl Ref {
    /// The ref at `ref_name`, trimmed.
    pub fn new(ref_name: &str) -> (r: Ref)
        ensures
            r.0@ == trim(ref_name@),
    {
        Ref(trim_text(ref_name))
    }

    /// What a ref file's text points to.
    pub fn parse_ref_content(content: &str) -> (r: String)
        ensures
            r@ == parse_ref_content(content@),
    {
        proof {
            reveal_strlit("ref:");
            assert("ref:"@ =~= indirection_mark());
        }
        if text_starts_with(content, "ref:") {
            let end = text_find_char(content, ':', 4);
            proof {
                lemma_find_char_bounds(content@, ':', 4);
            }
            let piece = content.substring_char(4, end);
            trim_text(piece)
        } else {
            trim_text(content)
        }
    }

    /// The bytes of this ref's file.
    pub fn get_content(&self, refs: &RefStore) -> (r: Vec<u8>)
        requires
            refs.wf(),
        ensures
            r@ == ref_content(refs@, self.0@),
    {
        match refs.get(self.0.as_str()) {
            Some(v) => crate::bytes::copy_range(v.as_slice(), 0, v.len()),
            None => Vec::new(),
        }
    }

    /// Follows this ref, taking at most as many indirections as there are
    /// ref files, to the value it finally holds.
    pub fn resolve(&self, refs: &RefStore) -> (r: Result<String, RepoError>)
        requires
            refs.wf(),
        ensures
            match r {
                Ok(v) => resolve_ref(refs@, self.0@, refs@.len()) == Ok::<Seq<char>, RepoError>(
                    v@,
                ),
                Err(e) => resolve_ref(refs@, self.0@, refs@.len()) == Err::<Seq<char>, RepoError>(
                    e,
                ),
            },
    {
        let mut hops = refs.len();
        let mut current = Ref(self.0.clone());
        loop
            invariant
                refs.wf(),
                resolve_ref(refs@, self.0@, refs@.len()) == resolve_ref(
                    refs@,
                    current.0@,
                    hops as nat,
                ),
            decreases hops,
        {
            let bytes = current.get_content(refs);
            proof {
                assert(bytes@.subrange(0, bytes@.len() as int) =~= bytes@);
            }
            let text = match crate::bytes::utf8_to_string(bytes) {
                Some(t) => t,
                None => {
                    assert(ref_value(refs@, current.0@) == Err::<Seq<char>, RepoError>(
                        RepoError::InvalidRef,
                    ));
                    return Err(RepoError::InvalidRef);
                },
            };
            proof {
                encode_utf8_decode_utf8(text@);
            }
            let target = Self::parse_ref_content(text.as_str());
            proof {
                reveal_strlit("refs/");
                assert("refs/"@ =~= refs_root());
                assert(ref_value(refs@, current.0@) == Ok::<Seq<char>, RepoError>(target@));
            }
            if text_starts_with(target.as_str(), "refs/") {
                if hops == 0 {
                    return Err(RepoError::CyclicRef);
                }
                hops = hops - 1;
                current = Ref::new(target.as_str());
            } else {
                return Ok(target);
            }
        }
    }

    /// Points this ref at `hash`, creating its file if need be.
    pub fn update(&self, refs: &mut RefStore, hash: &str)
        requires
            old(refs).wf(),
        ensures
            final(refs).wf(),
            final(refs)@ == old(refs)@.insert(self.0@, encode_utf8(hash@)),
    {
        let bytes = hash.as_bytes();
        let data = crate::bytes::copy_range(bytes, 0, bytes.len());
        assert(bytes@.subrange(0, bytes@.len() as int) =~= bytes@);
        refs.insert(self.0.clone(), data);
    }
}

proof fn lemma_find_char_bounds(s: Seq<char>, c: char, i: int)
    requires
        0 <= i,
    ensures
        i <= find_char(s, c, i) <= s.len() || (i > s.len() && find_char(s, c, i) == s.len()),
    decreases s.len() - i,
{
    if i < s.len() && s[i] != c {
        lemma_find_char_bounds(s, c, i + 1);
    }
}

/// The ref that HEAD names: HEAD's text, trimmed, must open with `"ref: "`.
pub open spec fn head_target(head: Seq<char>) -> Result<Seq<char>, RepoError> {
    let t = trim(head);
    if starts_with(t, head_mark()) {
        Ok(t.subrange(5, t.len() as int))
    } else {
        Err(RepoError::InvalidRef)
    }
}

/// The path of the ref that HEAD (whose text is `head`) names.
pub fn get_head(head: &str) -> (r: Result<String, RepoError>)
    ensures
        match r {
            Ok(p) => head_target(head@) == Ok::<Seq<char>, RepoError>(p@),
            Err(e) => head_target(head@) == Err::<Seq<char>, RepoError>(e),
        },
{
    let t = trim_text(head);
    proof {
        reveal_strlit("ref: ");
        assert("ref: "@ =~= head_mark());
    }
    if !text_starts_with(t.as_str(), "ref: ") {
        return Err(RepoError::InvalidRef);
    }
    let n = t.as_str().unicode_len();
    Ok(t.as_str().substring_char(5, n).to_owned())
}

/// Follows HEAD (whose text is `head`) to the value its ref chain ends in.
pub open spec fn resolve_head_spec(refs: Map<Seq<char>, Seq<u8>>, head: Seq<char>) -> Result<
    Seq<char>,
    RepoError,
> {
    match head_target(head) {
        Err(e) => Err(e),
        Ok(p) => resolve_ref(refs, trim(parse_ref_content(p)), refs.len()),
    }
}

/// Follows HEAD (whose text is `head`) to the value its ref chain ends in;
/// an empty value means that nothing has been committed yet.
pub fn resolve_head(refs: &RefStore, head: &str) -> (r: Result<String, RepoError>)
    requires
        refs.wf(),
    ensures
        match r {
            Ok(v) => resolve_head_spec(refs@, head@) == Ok::<Seq<char>, RepoError>(v@),
            Err(e) => resolve_head_spec(refs@, head@) == Err::<Seq<char>, RepoError>(e),
        },
{
    let target = match get_head(head) {
        Ok(t) => t,
        Err(e) => return Err(e),
    };
    let r = Ref::new(Ref::parse_ref_content(target.as_str()).as_str());
    r.resolve(refs)
}

/// Points the ref that HEAD names at `hash`, returning that ref's path.
pub fn update_head(refs: &mut RefStore, head: &str, hash: &str) -> (r: Result<String, RepoError>)
    requires
        old(refs).wf(),
    ensures
        final(refs).wf(),
        match r {
            Ok(p) => head_target(head@) matches Ok(t) && p@ == trim(t) && final(refs)@ == old(
                refs,
            )@.insert(p@, encode_utf8(hash@)),
            Err(e) => head_target(head@) == Err::<Seq<char>, RepoError>(e) && final(refs)@ == old(
                refs,
            )@,
        },
{
    let target = match get_head(head) {
        Ok(t) => t,
        Err(e) => return Err(e),
    };
    let r = Ref::new(target.as_str());
    r.update(refs, hash);
    Ok(r.0)
}

} // verus!
