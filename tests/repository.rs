use dgit2::blob::BlobObject;
use dgit2::commit::CommitAuthor;
use dgit2::config::{valid_contract_address, Config};
use dgit2::error::{RepoError, StoreError};
use dgit2::git_config;
use dgit2::header::ObjectType;
use dgit2::refs::{get_head, resolve_head, update_head, Ref, RefStore};
use dgit2::repo::{commit, files_at_head, head_tree_hash};
use dgit2::header::ObjectHeader;
use dgit2::store::{
    get_blob_object, get_raw_object, hash_from_object_path, object_path, get_tree_object,
    ObjectSave, ObjectStore,
};
use dgit2::traits::ToBytes;
use dgit2::tree::{TreeEntry, TreeObject, MODE_DIRECTORY, MODE_FILE};
use dgit2::worktree::WorkNode;

const HEAD: &str = "ref: refs/heads/main\n";

fn file(name: &str, data: &str) -> WorkNode {
    WorkNode::File { name: name.to_string(), data: data.as_bytes().to_vec() }
}

fn dir(name: &str, children: Vec<WorkNode>) -> WorkNode {
    WorkNode::Dir { name: name.to_string(), children }
}

fn author() -> CommitAuthor {
    CommitAuthor {
        name: "Ada".to_string(),
        email: "ada@example.com".to_string(),
        timestamp: 1700000000,
        timezone: "+0000".to_string(),
    }
}

fn sample_dir() -> Vec<WorkNode> {
    vec![dir("sub", vec![file("b.txt", "world")]), file("a.txt", "hello")]
}

#[test]
fn write_tree_scenario() {
    let mut store = ObjectStore::new();
    let tree = TreeObject::write_tree_object(&sample_dir(), &mut store).unwrap();
    assert_eq!(tree.entries.len(), 2);
    assert_eq!(tree.entries[0].mode, MODE_FILE);
    assert_eq!(tree.entries[0].name, "a.txt");
    assert_eq!(tree.entries[0].hash, dgit2::traits::Hash::hash(&BlobObject::new(b"hello".to_vec())));
    assert_eq!(tree.entries[1].mode, MODE_DIRECTORY);
    assert_eq!(tree.entries[1].name, "sub");
    let sub = TreeObject::from_entries(vec![TreeEntry {
        mode: MODE_FILE,
        name: "b.txt".to_string(),
        hash: dgit2::traits::Hash::hash(&BlobObject::new(b"world".to_vec())),
    }]);
    assert_eq!(tree.entries[1].hash, dgit2::traits::Hash::hash(&sub));
    // two blobs, the subtree and the root tree
    assert_eq!(store.len(), 4);
    let root_hash = dgit2::traits::Hash::hash(&tree);
    assert!(store.contains(&root_hash));
    let back = get_tree_object(&store, &root_hash).unwrap();
    assert_eq!(back.entries.len(), 2);
    assert_eq!(back.entries[1].hash, tree.entries[1].hash);
    let blob = get_blob_object(&store, &tree.entries[0].hash).unwrap();
    assert_eq!(blob.data, b"hello".to_vec());
    assert_eq!(get_raw_object(&store, &tree.entries[1].hash).unwrap(), sub.to_bytes());
    assert_eq!(get_raw_object(&store, &root_hash).unwrap(), tree.to_bytes());
}

#[test]
fn write_tree_skips_metadata_dir() {
    let mut store = ObjectStore::new();
    let nodes = vec![dir(".git", vec![file("HEAD", "x")]), file("a.txt", "hello")];
    let tree = TreeObject::write_tree_object(&nodes, &mut store).unwrap();
    assert_eq!(tree.entries.len(), 1);
    assert_eq!(tree.entries[0].name, "a.txt");
    assert_eq!(store.len(), 2);
}

#[test]
fn hash_object_of_hello() {
    let mut store = ObjectStore::new();
    let blob = BlobObject::write_blob_object(b"hello".to_vec(), &mut store).unwrap();
    let hash = dgit2::traits::Hash::hash(&blob);
    assert_eq!(hash, "b6fc4c620b67d95f953a5c1c1230aaab5db5a1b0");
    assert_eq!(hash.len(), 40);
    assert_eq!(get_raw_object(&store, &hash).unwrap(), b"blob 5\0hello".to_vec());
}

#[test]
fn saving_twice_keeps_the_store() {
    let mut store = ObjectStore::new();
    let blob = BlobObject::new(b"same".to_vec());
    let h1 = blob.save_object(&mut store).unwrap();
    let first = store.value(0).clone();
    let h2 = blob.save_object(&mut store).unwrap();
    assert_eq!(h1, h2);
    assert_eq!(store.len(), 1);
    assert_eq!(store.value(0), &first);
    assert_eq!(store.key(0), &h1);
}

#[test]
fn store_errors() {
    let mut store = ObjectStore::new();
    assert_eq!(get_raw_object(&store, "00").unwrap_err(), StoreError::NotFound);
    store.insert("bad".to_string(), b"not zlib".to_vec());
    assert_eq!(get_raw_object(&store, "bad").unwrap_err(), StoreError::Corrupt);
    let odd = BlobObject { header: ObjectHeader { object_type: ObjectType::Blob, size: 9 }, data: b"x".to_vec() };
    let h = odd.save_object(&mut store).unwrap();
    assert!(matches!(
        get_blob_object(&store, &h),
        Err(StoreError::Decode(dgit2::error::DecodeError::SizeMismatch))
    ));
}

#[test]
fn object_paths() {
    let h = "b6fc4c620b67d95f953a5c1c1230aaab5db5a1b0";
    let p = object_path(h).unwrap();
    assert_eq!(p, "objects/b6/fc4c620b67d95f953a5c1c1230aaab5db5a1b0");
    assert_eq!(object_path("a"), None);
    assert_eq!(hash_from_object_path("b6/fc4c620b67d95f953a5c1c1230aaab5db5a1b0"), h);
}

#[test]
fn parse_ref_contents() {
    assert_eq!(Ref::parse_ref_content("ref: refs/heads/main\n"), "refs/heads/main");
    assert_eq!(Ref::parse_ref_content("  abc123 \n"), "abc123");
    assert_eq!(Ref::parse_ref_content("ref:refs/x:y"), "refs/x");
    assert_eq!(Ref::new("  refs/heads/main\t").0, "refs/heads/main");
}

#[test]
fn ref_chain_resolution() {
    let mut refs = RefStore::new();
    refs.insert("refs/heads/a".to_string(), b"ref: refs/heads/b\n".to_vec());
    refs.insert("refs/heads/b".to_string(), b"ref: refs/heads/c\n".to_vec());
    refs.insert("refs/heads/c".to_string(), b"abc123\n".to_vec());
    assert_eq!(Ref::new("refs/heads/a").resolve(&refs).unwrap(), "abc123");
    assert_eq!(Ref::new("refs/heads/c").resolve(&refs).unwrap(), "abc123");
    assert_eq!(Ref::new("refs/heads/missing").resolve(&refs).unwrap(), "");
}

#[test]
fn cyclic_and_invalid_refs() {
    let mut refs = RefStore::new();
    refs.insert("refs/heads/a".to_string(), b"ref: refs/heads/b".to_vec());
    refs.insert("refs/heads/b".to_string(), b"ref: refs/heads/a".to_vec());
    assert_eq!(Ref::new("refs/heads/a").resolve(&refs), Err(RepoError::CyclicRef));
    refs.insert("refs/heads/c".to_string(), vec![0xff, 0xfe]);
    assert_eq!(Ref::new("refs/heads/c").resolve(&refs), Err(RepoError::InvalidRef));
}

#[test]
fn head_handling() {
    assert_eq!(get_head(HEAD).unwrap(), "refs/heads/main");
    assert_eq!(get_head("refs/heads/main"), Err(RepoError::InvalidRef));
    let mut refs = RefStore::new();
    assert_eq!(resolve_head(&refs, HEAD).unwrap(), "");
    let path = update_head(&mut refs, HEAD, "abc").unwrap();
    assert_eq!(path, "refs/heads/main");
    assert_eq!(resolve_head(&refs, HEAD).unwrap(), "abc");
    assert_eq!(Ref::new("refs/heads/main").get_content(&refs), b"abc".to_vec());
}

#[test]
fn second_commit_has_first_as_parent() {
    let mut store = ObjectStore::new();
    let mut refs = RefStore::new();
    let nodes = sample_dir();
    let first = commit(&mut store, &mut refs, HEAD, &nodes, &author(), Some("one".to_string())).unwrap();
    let c1 = get_blob_object(&store, &first).unwrap();
    assert_eq!(c1.header.object_type, ObjectType::Commit);
    let text1 = String::from_utf8(c1.data.clone()).unwrap();
    assert!(!text1.contains("parent "));
    assert!(text1.ends_with("\n\none\n"));
    let second = commit(&mut store, &mut refs, HEAD, &nodes, &author(), None).unwrap();
    assert_ne!(first, second);
    let c2 = get_blob_object(&store, &second).unwrap();
    let text2 = String::from_utf8(c2.data).unwrap();
    let parents: Vec<&str> = text2.lines().filter(|l| l.starts_with("parent ")).collect();
    assert_eq!(parents, vec![format!("parent {}", first).as_str()]);
    assert!(text2.ends_with("\n\n<blank>\n"));
    assert_eq!(resolve_head(&refs, HEAD).unwrap(), second);
}

#[test]
fn files_at_head_after_commit() {
    let mut store = ObjectStore::new();
    let mut refs = RefStore::new();
    let h = commit(&mut store, &mut refs, HEAD, &sample_dir(), &author(), None).unwrap();
    let tree_hash = head_tree_hash(&store, &h).unwrap();
    let tree = TreeObject::write_tree_object(&sample_dir(), &mut ObjectStore::new()).unwrap();
    assert_eq!(tree_hash, dgit2::traits::Hash::hash(&tree));
    let files = files_at_head(&store, &refs, HEAD).unwrap();
    assert_eq!(
        files,
        vec![
            ("./a.txt".to_string(), b"hello".to_vec()),
            ("./sub/b.txt".to_string(), b"world".to_vec()),
        ]
    );
}

#[test]
fn head_tree_of_bad_commit() {
    let mut store = ObjectStore::new();
    let empty_commit = TreeObject {
        header: ObjectHeader { object_type: ObjectType::Commit, size: 0 },
        entries: Vec::new(),
    };
    let h = empty_commit.save_object(&mut store).unwrap();
    assert_eq!(head_tree_hash(&store, &h), Err(RepoError::InvalidCommit));
    let blob = BlobObject::new(b"plain".to_vec());
    let b = blob.save_object(&mut store).unwrap();
    assert_eq!(head_tree_hash(&store, &b), Ok(b.clone()));
}

#[test]
fn cyclic_tree_is_refused() {
    let h = "00112233445566778899aabbccddeeff00112233";
    let tree = TreeObject::from_entries(vec![TreeEntry {
        mode: MODE_DIRECTORY,
        name: "loop".to_string(),
        hash: h.to_string(),
    }]);
    let mut scratch = ObjectStore::new();
    tree.save_object(&mut scratch).unwrap();
    let mut store = ObjectStore::new();
    store.insert(h.to_string(), scratch.value(0).clone());
    assert_eq!(tree.get_files_recursive(&store, &".".to_string()), Err(RepoError::CyclicTree));
}

#[test]
fn contract_addresses() {
    let good = "0x5FbDB2315678afecb367f032d93F642f64180aa3";
    assert!(valid_contract_address(good));
    assert!(!valid_contract_address("0x5FbDB2315678afecb367f032d93F642f64180aa"));
    assert!(!valid_contract_address("0x5FbDB2315678afecb367f032d93F642f64180aaZ"));
    assert!(!valid_contract_address("x05FbDB2315678afecb367f032d93F642f64180aa3"));
}

#[test]
fn contract_address_source() {
    let stored = git_config::Config::from_content("  0xabc\n");
    assert_eq!(stored.repository_address, "0xabc");
    assert_eq!(stored.content(), b"0xabc".to_vec());
    let mut cfg = Config {
        contract_address: None,
        pinata_api_key: "k".to_string(),
        pinata_secret_api_key: "s".to_string(),
        pk: "p".to_string(),
        rpc_url: "http://localhost:8545".to_string(),
        ipfs_prefix: "https://ipfs.io/ipfs/".to_string(),
    };
    assert_eq!(cfg.get_contract_address(&stored), "0xabc");
    cfg.contract_address = Some("0xdef".to_string());
    assert_eq!(cfg.get_contract_address(&stored), "0xdef");
    assert_eq!(cfg.get_pinata_api_key(), "k");
    assert_eq!(cfg.get_pinata_secret_api_key(), "s");
    assert_eq!(cfg.pk(), "p");
    assert_eq!(cfg.rpc_url(), "http://localhost:8545");
    assert_eq!(cfg.ipfs_prefix(), "https://ipfs.io/ipfs/");
    assert_eq!(git_config::Config::new("0x1".to_string()).repository_address, "0x1");
}
