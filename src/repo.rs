//! Whole-repository operations: committing the working directory and
//! listing the files that HEAD's tree holds.
use crate::blob::{parse_blob, BlobObject};
use crate::bytes::{copy_range, find_byte, find_from, lemma_find_from_facts, utf8_to_string};
use crate::commit::{content_encoding, CommitAuthor, CommitContent, CommitObject, ContentModel, AuthorModel};
use crate::digest::content_id;
use crate::error::{RepoError, StoreError};
use crate::header::{header_encoding, ObjectType};
use crate::refs::{head_target, resolve_head, resolve_head_spec, update_head, RefStore};
use crate::store::{
    get_tree_object, holds_content, keeps_content, lemma_store_content, read_object, zlib_deflate,
    zlib_inflate, ObjectSave, ObjectStore,
};
use crate::text::trim;
use crate::traits::ToBytes;
use crate::tree::TreeObject;
use crate::worktree::{dir_encoding, file_models, nodes_stored, tree_files, WorkNode};
use vstd::prelude::*;
use vstd::utf8::{decode_utf8, encode_utf8, encode_utf8_decode_utf8, valid_utf8};

verus! {

/// `"tree"`
pub open spec fn tree_word() -> Seq<u8> {
    seq![116u8, 114, 101, 101]
}

/// The first line of `data`, without its newline.
pub open spec fn first_line(data: Seq<u8>) -> Seq<u8> {
    match find_from(data, 10u8, 0) {
        Some(k) => data.subrange(0, k),
        None => data,
    }
}

/// The second space-separated field of a commit body's first line, which
/// must open with `"tree"`.
pub open spec fn commit_tree_field(data: Seq<u8>) -> Result<Seq<u8>, RepoError> {
    let line = first_line(data);
    if !(line.len() >= 4 && line.subrange(0, 4) == tree_word()) {
        Err(RepoError::InvalidCommit)
    } else {
        match find_from(line, 32u8, 0) {
            None => Err(RepoError::InvalidCommit),
            Some(sp) => {
                let end = match find_from(line, 32u8, sp + 1) {
                    Some(k) => k,
                    None => line.len() as int,
                };
                Ok(line.subrange(sp + 1, end))
            },
        }
    }
}

/// The tree that the object `hash` stands for: a commit's tree, or the
/// object itself otherwise.
pub open spec fn tree_of(store: Map<Seq<char>, Seq<u8>>, hash: Seq<char>) -> Result<Seq<char>, RepoError> {
    match read_object(store, hash) {
        Err(e) => Err(RepoError::Store(e)),
        Ok(raw) => match parse_blob(raw) {
            Err(d) => Err(RepoError::Store(StoreError::Decode(d))),
            Ok((h, data)) => {
                if h.object_type == ObjectType::Commit {
                    match commit_tree_field(data) {
                        Err(e) => Err(e),
                        Ok(f) => {
                            if valid_utf8(f) {
                                Ok(decode_utf8(f))
                            } else {
                                Err(RepoError::InvalidCommit)
                            }
                        },
                    }
                } else {
                    Ok(hash)
                }
            },
        },
    }
}

fn starts_with_tree_word(line: &[u8]) -> (r: bool)
    ensures
        r == (line@.len() >= 4 && line@.subrange(0, 4) == tree_word()),
{
    if line.len() < 4 {
        return false;
    }
    let r = line[0] == 116u8 && line[1] == 114u8 && line[2] == 101u8 && line[3] == 101u8;
    assert(r ==> line@.subrange(0, 4) =~= tree_word());
    assert(line@.subrange(0, 4) == tree_word() ==> line@.subrange(0, 4)[0] == 116u8 && line@.subrange(0, 4)[1] == 114u8
        && line@.subrange(0, 4)[2] == 101u8 && line@.subrange(0, 4)[3] == 101u8);
    r
}

/// The hash of the tree that the object `hash` stands for.
pub fn head_tree_hash(store: &ObjectStore, hash: &String) -> (r: Result<String, RepoError>)
    requires
        store.wf(),
    ensures
        match r {
            Ok(t) => tree_of(store@, hash@) == Ok::<Seq<char>, RepoError>(t@),
            Err(e) => tree_of(store@, hash@) == Err::<Seq<char>, RepoError>(e),
        },
{
    let raw = match crate::store::get_raw_object(store, hash.as_str()) {
        Ok(v) => v,
        Err(e) => return Err(RepoError::Store(e)),
    };
    let blob = match BlobObject::try_from(raw) {
        Ok(b) => b,
        Err(d) => return Err(RepoError::Store(StoreError::Decode(d))),
    };
    if blob.header.object_type != ObjectType::Commit {
        return Ok(hash.clone());
    }
    let data = blob.data.as_slice();
    let nl = find_byte(data, 10u8, 0);
    let line_end = match nl {
        Some(k) => k,
        None => data.len(),
    };
    proof {
        lemma_find_from_facts(data@, 10u8, 0);
    }
    let line = copy_range(data, 0, line_end);
    assert(line@ =~= first_line(data@)) by {
        if nl is None {
            assert(data@.subrange(0, data@.len() as int) =~= data@);
        }
    }
    if !starts_with_tree_word(line.as_slice()) {
        return Err(RepoError::InvalidCommit);
    }
    let sp = match find_byte(line.as_slice(), 32u8, 0) {
        Some(k) => k,
        None => return Err(RepoError::InvalidCommit),
    };
    proof {
        lemma_find_from_facts(line@, 32u8, 0);
        lemma_find_from_facts(line@, 32u8, sp + 1);
    }
    let end = match find_byte(line.as_slice(), 32u8, sp + 1) {
        Some(k) => k,
        None => line.len(),
    };
    let field = copy_range(line.as_slice(), sp + 1, end);
    match utf8_to_string(field) {
        Some(t) => {
            proof {
                encode_utf8_decode_utf8(t@);
            }
            Ok(t)
        },
        None => Err(RepoError::InvalidCommit),
    }
}

/// The files that HEAD's tree holds, with their paths under `"."`; none
/// when HEAD leads to a tree that is not stored.
pub open spec fn head_files(
    store: Map<Seq<char>, Seq<u8>>,
    refs: Map<Seq<char>, Seq<u8>>,
    head: Seq<char>,
) -> Result<Seq<(Seq<char>, Seq<u8>)>, RepoError> {
    match resolve_head_spec(refs, head) {
        Err(e) => Err(e),
        Ok(h) => match tree_of(store, h) {
            Err(e) => Err(e),
            Ok(t) => {
                if !store.contains_key(t) {
                    Ok(Seq::empty())
                } else {
                    match read_object(store, t) {
                        Err(e) => Err(RepoError::Store(e)),
                        Ok(raw) => match crate::tree::parse_tree(raw) {
                            Err(d) => Err(RepoError::Store(StoreError::Decode(d))),
                            Ok((_, es)) => tree_files(store, es, seq!['.'], store.len()),
                        },
                    }
                }
            },
        },
    }
}

/// The files that HEAD (whose text is `head`) leads to, for writing into
/// the working directory.
pub fn files_at_head(store: &ObjectStore, refs: &RefStore, head: &str) -> (r: Result<
    Vec<(String, Vec<u8>)>,
    RepoError,
>)
    requires
        store.wf(),
        refs.wf(),
    ensures
        match r {
            Ok(v) => head_files(store@, refs@, head@) == Ok::<Seq<(Seq<char>, Seq<u8>)>, RepoError>(
                file_models(v@),
            ),
            Err(e) => head_files(store@, refs@, head@) == Err::<
                Seq<(Seq<char>, Seq<u8>)>,
                RepoError,
            >(e),
        },
{
    let h = match resolve_head(refs, head) {
        Ok(h) => h,
        Err(e) => return Err(e),
    };
    let t = match head_tree_hash(store, &h) {
        Ok(t) => t,
        Err(e) => return Err(e),
    };
    if !store.contains(t.as_str()) {
        let v: Vec<(String, Vec<u8>)> = Vec::new();
        assert(file_models(v@) =~= Seq::<(Seq<char>, Seq<u8>)>::empty());
        return Ok(v);
    }
    let tree = match get_tree_object(store, t.as_str()) {
        Ok(tree) => tree,
        Err(e) => return Err(RepoError::Store(e)),
    };
    proof {
        reveal_strlit(".");
        assert("."@ =~= seq!['.']);
    }
    let prefix = ".".to_owned();
    tree.get_files_recursive(store, &prefix)
}

/// `"<blank>"`, the message of a commit made without one.
pub open spec fn default_message() -> Seq<char> {
    seq!['<', 'b', 'l', 'a', 'n', 'k', '>']
}

/// A commit object's full encoding.
pub open spec fn commit_encoding(c: ContentModel) -> Seq<u8> {
    header_encoding(ObjectType::Commit, content_encoding(c).len()) + content_encoding(c)
}

/// The content of the commit made on top of `parent` (empty when there is
/// none yet) for the working directory `root`.
pub open spec fn commit_content(
    parent: Seq<char>,
    root: Seq<WorkNode>,
    author: AuthorModel,
    message: Seq<char>,
) -> ContentModel {
    ContentModel {
        tree: content_id(dir_encoding(root)),
        parents: if parent.len() == 0 { Seq::empty() } else { seq![parent] },
        author: author,
        committer: author,
        message: message,
    }
}

fn copy_author(a: &CommitAuthor) -> (r: CommitAuthor)
    ensures
        r@ == a@,
{
    CommitAuthor {
        name: a.name.clone(),
        email: a.email.clone(),
        timestamp: a.timestamp,
        timezone: a.timezone.clone(),
    }
}

/// Stores the working directory `root` as a tree and a commit on top of
/// what HEAD resolves to, then points HEAD's ref at the commit, whose hash
/// is returned.
pub fn commit(
    store: &mut ObjectStore,
    refs: &mut RefStore,
    head: &str,
    root: &Vec<WorkNode>,
    author: &CommitAuthor,
    message: Option<String>,
) -> (r: Result<String, RepoError>)
    requires
        old(store).wf(),
        old(refs).wf(),
    ensures
        final(store).wf(),
        final(refs).wf(),
        r is Ok <==> resolve_head_spec(old(refs)@, head@) is Ok,
        r matches Err(e) ==> resolve_head_spec(old(refs)@, head@) == Err::<Seq<char>, RepoError>(e)
            && final(store)@ == old(store)@ && final(refs)@ == old(refs)@,
        r matches Ok(h) ==> ({
            let c = commit_content(
                resolve_head_spec(old(refs)@, head@)->Ok_0,
                root@,
                author@,
                match message {
                    Some(m) => m@,
                    None => default_message(),
                },
            );
            &&& h@ == content_id(commit_encoding(c))
            &&& final(store)@.contains_key(h@)
            &&& final(store)@[h@] == zlib_deflate(commit_encoding(c))
            &&& zlib_inflate(zlib_deflate(commit_encoding(c))) == Some(commit_encoding(c))
            &&& head_target(head@) matches Ok(t) && final(refs)@ == old(refs)@.insert(
                trim(t),
                encode_utf8(h@),
            )
            &&& holds_content(final(store)@, content_id(dir_encoding(root@)))
            &&& nodes_stored(final(store)@, root@)
            &&& keeps_content(old(store)@, final(store)@)
        }),
{
    let ghost message_text = if message is Some {
        message->0@
    } else {
        default_message()
    };
    let message = match message {
        Some(m) => m,
        None => {
            proof {
                reveal_strlit("<blank>");
                assert("<blank>"@ =~= default_message());
            }
            "<blank>".to_owned()
        },
    };
    let parent = match resolve_head(refs, head) {
        Ok(p) => p,
        Err(e) => return Err(e),
    };
    let mut parents: Vec<String> = Vec::new();
    let has_parent = !parent.as_str().is_empty();
    if has_parent {
        parents.push(parent);
    }
    let ghost start = store@;
    let tree = match TreeObject::write_tree_object(root, store) {
        Ok(t) => t,
        Err(e) => return Err(RepoError::Store(e)),
    };
    assert(holds_content(store@, content_id(dir_encoding(root@))));
    let tree_hash = crate::traits::Hash::hash(&tree);
    let content = CommitContent {
        tree_sha: tree_hash,
        parent_sha: parents,
        author: copy_author(author),
        committer: copy_author(author),
        message,
    };
    let ghost p = resolve_head_spec(refs@, head@)->Ok_0;
    assert(content@ == commit_content(p, root@, author@, message_text)) by {
        if has_parent {
            assert(content@.parents =~= seq![p]);
        } else {
            assert(content@.parents =~= Seq::<Seq<char>>::empty());
        }
    }
    let obj = CommitObject::new(content);
    let ghost mid = store@;
    let h = match obj.save_object(store) {
        Ok(h) => h,
        Err(e) => return Err(RepoError::Store(e)),
    };
    proof {
        let c = commit_content(p, root@, author@, message_text);
        assert(obj.encoded() == commit_encoding(c));
        lemma_store_content(mid, obj.encoded());
        crate::worktree::lemma_nodes_stored_kept(mid, store@, root@);
    }
    match update_head(refs, head, h.as_str()) {
        Ok(_) => Ok(h),
        Err(e) => Err(e),
    }
}

} // verus!
