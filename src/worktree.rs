//! The tree engine: stores a directory snapshot as blobs and trees, and
//! flattens a stored tree back into files.
use crate::blob::{parse_blob, BlobObject};
use crate::digest::content_id;
use crate::error::{RepoError, StoreError};
use crate::header::{header_encoding, ObjectType};
use crate::store::{
    holds_content, keeps_content, lemma_store_content, read_object, zlib_deflate, zlib_inflate,
    ObjectSave, ObjectStore,
};
use crate::traits::ToBytes;
use crate::tree::{
    canonical_entries, entries_encoding, entry_models, lemma_canonical_unique, lemma_entry_order_total,
    parse_tree, EntryModel, TreeEntry, TreeObject, MODE_DIRECTORY, MODE_FILE,
};
use vstd::prelude::*;
use vstd::string::StringExecFns;

verus! {

/// A file or directory of a working directory, as read from disk.
#[derive(Debug)]
pub enum WorkNode {
    File { name: String, data: Vec<u8> },
    Dir { name: String, children: Vec<WorkNode> },
}

/// `".git"`, the repository's own metadata directory, which is never stored.
pub open spec fn metadata_dir_name() -> Seq<char> {
    seq!['.', 'g', 'i', 't']
}

pub open spec fn node_name(n: WorkNode) -> Seq<char> {
    match n {
        WorkNode::File { name, .. } => name@,
        WorkNode::Dir { name, .. } => name@,
    }
}

/// The tree entry that stands for a node.
pub open spec fn node_entry(n: WorkNode) -> EntryModel
    decreases n, 2int,
{
    match n {
        WorkNode::File { name, data } => EntryModel {
            mode: 100644,
            name: name@,
            hash: content_id(header_encoding(ObjectType::Blob, data@.len()) + data@),
        },
        WorkNode::Dir { name, children } => EntryModel {
            mode: 40000,
            name: name@,
            hash: content_id(dir_encoding(children@)),
        },
    }
}

/// The entries for the nodes of one directory, leaving out the metadata
/// directory.
pub open spec fn dir_entries(cs: Seq<WorkNode>) -> Seq<EntryModel>
    decreases cs, 0int,
{
    if cs.len() == 0 {
        Seq::empty()
    } else {
        let rest = dir_entries(cs.drop_last());
        if node_name(cs.last()) == metadata_dir_name() {
            rest
        } else {
            rest.push(node_entry(cs.last()))
        }
    }
}

/// The encoding of the tree that stands for one directory.
pub open spec fn dir_encoding(cs: Seq<WorkNode>) -> Seq<u8>
    decreases cs, 1int,
{
    let es = canonical_entries(dir_entries(cs));
    header_encoding(ObjectType::Tree, entries_encoding(es).len()) + entries_encoding(es)
}

fn is_metadata_dir(name: &String) -> (r: bool)
    ensures
        r == (name@ == metadata_dir_name()),
{
    proof {
        reveal_strlit(".git");
        assert(".git"@ =~= metadata_dir_name());
    }
    crate::bytes::same_text(name.as_str(), ".git")
}

/// Every node of `cs` but the metadata directory, and everything below it,
/// is stored under its hash.
pub open spec fn nodes_stored(store: Map<Seq<char>, Seq<u8>>, cs: Seq<WorkNode>) -> bool
    decreases cs, 0int,
{
    if cs.len() == 0 {
        true
    } else {
        nodes_stored(store, cs.drop_last()) && (node_name(cs.last()) == metadata_dir_name()
            || node_stored(store, cs.last()))
    }
}

/// The node is stored under its hash, and so is everything below it.
pub open spec fn node_stored(store: Map<Seq<char>, Seq<u8>>, n: WorkNode) -> bool
    decreases n, 1int,
{
    holds_content(store, node_entry(n).hash) && match n {
        WorkNode::Dir { children, .. } => nodes_stored(store, children@),
        WorkNode::File { .. } => true,
    }
}

/// What was stored for a snapshot stays stored when the store keeps content.
pub proof fn lemma_nodes_stored_kept(a: Map<Seq<char>, Seq<u8>>, b: Map<Seq<char>, Seq<u8>>, cs: Seq<WorkNode>)
    requires
        keeps_content(a, b),
        nodes_stored(a, cs),
    ensures
        nodes_stored(b, cs),
    decreases cs, 0int,
{
    if cs.len() > 0 {
        lemma_nodes_stored_kept(a, b, cs.drop_last());
        if node_name(cs.last()) != metadata_dir_name() {
            lemma_node_stored_kept(a, b, cs.last());
        }
    }
}

/// What was stored for a node stays stored when the store keeps content.
pub proof fn lemma_node_stored_kept(a: Map<Seq<char>, Seq<u8>>, b: Map<Seq<char>, Seq<u8>>, n: WorkNode)
    requires
        keeps_content(a, b),
        node_stored(a, n),
    ensures
        node_stored(b, n),
    decreases n, 1int,
{
    assert(holds_content(a, node_entry(n).hash));
    match n {
        WorkNode::Dir { children, .. } => {
            lemma_nodes_stored_kept(a, b, children@);
        },
        WorkNode::File { .. } => {},
    }
}

impl TreeObject {
    /// Stores every file under `nodes` as a blob and every directory as a
    /// tree, and returns the tree for `nodes` itself, also stored.
    pub fn write_tree_object(nodes: &Vec<WorkNode>, store: &mut ObjectStore) -> (r: Result<
        TreeObject,
        StoreError,
    >)
        requires
            old(store).wf(),
        ensures
            final(store).wf(),
            r is Ok,
            r matches Ok(t) ==> t.models() == canonical_entries(dir_entries(nodes@)) && t.encoded()
                == dir_encoding(nodes@) && t.encodable(),
            final(store)@.contains_key(content_id(dir_encoding(nodes@))),
            final(store)@[content_id(dir_encoding(nodes@))] == zlib_deflate(dir_encoding(nodes@)),
            zlib_inflate(zlib_deflate(dir_encoding(nodes@))) == Some(dir_encoding(nodes@)),
            nodes_stored(final(store)@, nodes@),
            keeps_content(old(store)@, final(store)@),
            forall|k: Seq<char>| old(store)@.contains_key(k) ==> #[trigger] final(store)@.contains_key(k),
        decreases nodes@,
    {
        let ghost start = store@;
        let mut entries: Vec<TreeEntry> = Vec::new();
        let mut i: usize = 0;
        assert(nodes@.subrange(0, 0) =~= Seq::<WorkNode>::empty());
        assert(entry_models(entries@) =~= Seq::<EntryModel>::empty());
        while i < nodes.len()
            invariant
                store.wf(),
                i <= nodes@.len(),
                entry_models(entries@) == dir_entries(nodes@.subrange(0, i as int)),
                forall|k: int| 0 <= k < entries@.len() ==> crate::tree::entry_encodable(#[trigger] entries@[k]@),
                nodes_stored(store@, nodes@.subrange(0, i as int)),
                keeps_content(start, store@),
                forall|k: Seq<char>| start.contains_key(k) ==> #[trigger] store@.contains_key(k),
            decreases nodes@.len() - i,
        {
            let node = &nodes[i];
            let ghost pre = nodes@.subrange(0, i as int);
            let ghost cur = nodes@.subrange(0, i + 1);
            assert(cur.drop_last() =~= pre);
            assert(cur.last() == *node);
            let ghost before = entry_models(entries@);
            let ghost prev = store@;
            match node {
                WorkNode::File { name, data } => {
                    if !is_metadata_dir(name) {
                        let copy = crate::bytes::copy_range(data.as_slice(), 0, data.len());
                        assert(data@.subrange(0, data@.len() as int) =~= data@);
                        let blob = BlobObject::new(copy);
                        let hash = match blob.save_object(store) {
                            Ok(h) => h,
                            Err(e) => return Err(e),
                        };
                        proof {
                            crate::digest::lemma_object_id_hex(hash@);
                            lemma_store_content(prev, blob.encoded());
                            lemma_nodes_stored_kept(prev, store@, pre);
                            assert(node_stored(store@, *node));
                        }
                        entries.push(TreeEntry { mode: MODE_FILE, name: name.clone(), hash });
                        assert(entry_models(entries@) =~= before.push(node_entry(*node)));
                    }
                },
                WorkNode::Dir { name, children } => {
                    if !is_metadata_dir(name) {
                        let sub = match TreeObject::write_tree_object(children, store) {
                            Ok(t) => t,
                            Err(e) => return Err(e),
                        };
                        let ghost mid = store@;
                        let hash = match sub.save_object(store) {
                            Ok(h) => h,
                            Err(e) => return Err(e),
                        };
                        proof {
                            crate::digest::lemma_object_id_hex(hash@);
                            lemma_store_content(mid, sub.encoded());
                            lemma_nodes_stored_kept(prev, mid, pre);
                            lemma_nodes_stored_kept(mid, store@, pre);
                            lemma_nodes_stored_kept(mid, store@, children@);
                            assert(node_stored(store@, *node));
                        }
                        entries.push(TreeEntry { mode: MODE_DIRECTORY, name: name.clone(), hash });
                        assert(entry_models(entries@) =~= before.push(node_entry(*node)));
                    }
                },
            }
            assert(nodes_stored(store@, cur));
            i = i + 1;
        }
        assert(nodes@.subrange(0, nodes@.len() as int) =~= nodes@);
        let tree = TreeObject::from_entries(entries);
        proof {
            let es = canonical_entries(dir_entries(nodes@));
            lemma_entry_order_total();
            dir_entries(nodes@).lemma_sort_by_ensures(crate::tree::entry_order());
            lemma_canonical_unique(es, es);
            assert(tree.models() == es);
            assert(tree.encoded() == dir_encoding(nodes@));
        }
        let ghost prev = store@;
        match tree.save_object(store) {
            Ok(_) => {
                proof {
                    lemma_store_content(prev, tree.encoded());
                    lemma_nodes_stored_kept(prev, store@, nodes@);
                }
                Ok(tree)
            },
            Err(e) => Err(e),
        }
    }
}

/// `prefix/name`
pub open spec fn join_path(prefix: Seq<char>, name: Seq<char>) -> Seq<char> {
    prefix + seq!['/'] + name
}

/// The files under the entries `es` of a stored tree, with their paths
/// under `prefix`, in entry order; subtrees are followed at most `depth`
/// levels down.
pub open spec fn tree_files(
    store: Map<Seq<char>, Seq<u8>>,
    es: Seq<EntryModel>,
    prefix: Seq<char>,
    depth: nat,
) -> Result<Seq<(Seq<char>, Seq<u8>)>, RepoError>
    decreases depth, es.len(),
{
    if es.len() == 0 {
        Ok(Seq::empty())
    } else {
        match tree_files(store, es.drop_last(), prefix, depth) {
            Err(x) => Err(x),
            Ok(front) => {
                let e = es.last();
                let path = join_path(prefix, e.name);
                match read_object(store, e.hash) {
                    Err(x) => Err(RepoError::Store(x)),
                    Ok(raw) => {
                        if e.mode == 40000 {
                            if depth == 0 {
                                Err(RepoError::CyclicTree)
                            } else {
                                match parse_tree(raw) {
                                    Err(d) => Err(RepoError::Store(StoreError::Decode(d))),
                                    Ok((_, sub)) => match tree_files(
                                        store,
                                        sub,
                                        path,
                                        (depth - 1) as nat,
                                    ) {
                                        Err(x) => Err(x),
                                        Ok(fs) => Ok(front + fs),
                                    },
                                }
                            }
                        } else {
                            match parse_blob(raw) {
                                Err(d) => Err(RepoError::Store(StoreError::Decode(d))),
                                Ok((_, data)) => Ok(front.push((path, data))),
                            }
                        }
                    },
                }
            },
        }
    }
}

pub open spec fn file_models(v: Seq<(String, Vec<u8>)>) -> Seq<(Seq<char>, Seq<u8>)> {
    v.map_values(|f: (String, Vec<u8>)| (f.0@, f.1@))
}

fn join(prefix: &String, name: &String) -> (r: String)
    ensures
        r@ == join_path(prefix@, name@),
{
    let mut r = prefix.clone();
    proof {
        reveal_strlit("/");
        assert("/"@ =~= seq!['/']);
    }
    r.append("/");
    r.append(name.as_str());
    r
}

/// An error met in the first `k` entries is the error of any longer prefix.
proof fn lemma_tree_files_error_persists(
    store: Map<Seq<char>, Seq<u8>>,
    es: Seq<EntryModel>,
    prefix: Seq<char>,
    depth: nat,
    k: int,
    n: int,
)
    requires
        0 <= k <= n <= es.len(),
        tree_files(store, es.subrange(0, k), prefix, depth) is Err,
    ensures
        tree_files(store, es.subrange(0, n), prefix, depth) == tree_files(
            store,
            es.subrange(0, k),
            prefix,
            depth,
        ),
    decreases n - k,
{
    if n > k {
        lemma_tree_files_error_persists(store, es, prefix, depth, k, n - 1);
        assert(es.subrange(0, n).drop_last() =~= es.subrange(0, n - 1));
    }
}

fn collect_files(store: &ObjectStore, entries: &Vec<TreeEntry>, prefix: &String, depth: usize) -> (r: Result<
    Vec<(String, Vec<u8>)>,
    RepoError,
>)
    requires
        store.wf(),
    ensures
        match r {
            Ok(v) => tree_files(store@, entry_models(entries@), prefix@, depth as nat) == Ok::<
                Seq<(Seq<char>, Seq<u8>)>,
                RepoError,
            >(file_models(v@)),
            Err(e) => tree_files(store@, entry_models(entries@), prefix@, depth as nat) == Err::<
                Seq<(Seq<char>, Seq<u8>)>,
                RepoError,
            >(e),
        },
    decreases depth,
{
    let ghost es = entry_models(entries@);
    let mut out: Vec<(String, Vec<u8>)> = Vec::new();
    let mut i: usize = 0;
    assert(es.subrange(0, 0) =~= Seq::<EntryModel>::empty());
    assert(file_models(out@) =~= Seq::<(Seq<char>, Seq<u8>)>::empty());
    while i < entries.len()
        invariant
            store.wf(),
            i <= entries@.len(),
            es == entry_models(entries@),
            tree_files(store@, es.subrange(0, i as int), prefix@, depth as nat) == Ok::<
                Seq<(Seq<char>, Seq<u8>)>,
                RepoError,
            >(file_models(out@)),
        decreases entries@.len() - i,
    {
        let e = &entries[i];
        let ghost pre = es.subrange(0, i as int);
        let ghost cur = es.subrange(0, i + 1);
        assert(cur.drop_last() =~= pre);
        assert(cur.last() == e@);
        let path = join(prefix, &e.name);
        let ghost before = file_models(out@);
        let raw = match crate::store::get_raw_object(store, e.hash.as_str()) {
            Ok(v) => v,
            Err(x) => {
                proof {
                    lemma_tree_files_error_persists(store@, es, prefix@, depth as nat, i + 1, es.len() as int);
                    assert(es.subrange(0, es.len() as int) =~= es);
                }
                return Err(RepoError::Store(x));
            },
        };
        if e.mode == MODE_DIRECTORY {
            if depth == 0 {
                proof {
                    lemma_tree_files_error_persists(store@, es, prefix@, depth as nat, i + 1, es.len() as int);
                    assert(es.subrange(0, es.len() as int) =~= es);
                }
                return Err(RepoError::CyclicTree);
            }
            let sub = match TreeObject::try_from(raw) {
                Ok(t) => t,
                Err(d) => {
                    proof {
                        lemma_tree_files_error_persists(store@, es, prefix@, depth as nat, i + 1, es.len() as int);
                        assert(es.subrange(0, es.len() as int) =~= es);
                    }
                    return Err(RepoError::Store(StoreError::Decode(d)));
                },
            };
            let mut fs = match collect_files(store, &sub.entries, &path, depth - 1) {
                Ok(v) => v,
                Err(x) => {
                    proof {
                        lemma_tree_files_error_persists(store@, es, prefix@, depth as nat, i + 1, es.len() as int);
                        assert(es.subrange(0, es.len() as int) =~= es);
                    }
                    return Err(x);
                },
            };
            let ghost added = file_models(fs@);
            out.append(&mut fs);
            assert(file_models(out@) =~= before + added);
        } else {
            let blob = match BlobObject::try_from(raw) {
                Ok(b) => b,
                Err(d) => {
                    proof {
                        lemma_tree_files_error_persists(store@, es, prefix@, depth as nat, i + 1, es.len() as int);
                        assert(es.subrange(0, es.len() as int) =~= es);
                    }
                    return Err(RepoError::Store(StoreError::Decode(d)));
                },
            };
            out.push((path, blob.data));
            assert(file_models(out@) =~= before.push((join_path(prefix@, e@.name), blob.data@)));
        }
        i = i + 1;
    }
    assert(es.subrange(0, entries@.len() as int) =~= es);
    Ok(out)
}

impl TreeObject {
    /// The files under this tree, each with its path under `prefix` and its
    /// content, in entry order; subtrees are followed as deep as the store
    /// has objects.
    pub fn get_files_recursive(&self, store: &ObjectStore, prefix: &String) -> (r: Result<
        Vec<(String, Vec<u8>)>,
        RepoError,
    >)
        requires
            store.wf(),
        ensures
            match r {
                Ok(v) => tree_files(store@, self.models(), prefix@, store@.len()) == Ok::<
                    Seq<(Seq<char>, Seq<u8>)>,
                    RepoError,
                >(file_models(v@)),
                Err(e) => tree_files(store@, self.models(), prefix@, store@.len()) == Err::<
                    Seq<(Seq<char>, Seq<u8>)>,
                    RepoError,
                >(e),
            },
    {
        let depth = store.len();
        collect_files(store, &self.entries, prefix, depth)
    }
}

} // verus!
