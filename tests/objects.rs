use dgit2::blob::BlobObject;
use dgit2::commit::{CommitAuthor, CommitContent, CommitObject};
use dgit2::error::DecodeError;
use dgit2::header::{ObjectHeader, ObjectType};
use dgit2::store::{get_raw_object, ObjectSave, ObjectStore};
use dgit2::traits::ToBytes;
use dgit2::tree::{TreeEntry, TreeObject, MODE_DIRECTORY, MODE_FILE};

fn john() -> CommitAuthor {
    CommitAuthor {
        name: String::from("John Doe"),
        email: String::from("john@example.com"),
        timestamp: 1622519072,
        timezone: String::from("+0000"),
    }
}

fn entry(mode: u32, name: &str, hash: &str) -> TreeEntry {
    TreeEntry { mode, name: name.to_string(), hash: hash.to_string() }
}

const H1: &str = "b6fc4c620b67d95f953a5c1c1230aaab5db5a1b0";
const H2: &str = "cc628ccd10742baea8241c5924df992b5c019f71";

#[test]
fn test_blob_object_from() {
    let data = b"blob 5\0hello".to_vec();
    let blob = BlobObject::try_from(data.clone()).unwrap();
    assert_eq!(blob.header.size, 5);
    assert_eq!(blob.data, b"hello");
}

#[test]
fn test_blob_object_from_invalid() {
    let data = b"blob 5hello".to_vec();
    let result = BlobObject::try_from(data.clone());
    assert!(result.is_err());
}

#[test]
fn test_commit_author_to_bytes() {
    let author = john();
    let bytes = author.to_bytes();
    let expected = b"John Doe <john@example.com> 1622519072 +0000".to_vec();
    assert_eq!(bytes, expected);
}

#[test]
fn test_commit_content_to_bytes() {
    let author = john();
    let content = CommitContent {
        tree_sha: String::from("abc123"),
        parent_sha: vec![String::from("def456"), String::from("ghi789")],
        author: author.clone(),
        committer: author.clone(),
        message: String::from("Initial commit"),
    };
    let bytes = content.to_bytes();
    let expected = b"tree abc123\nparent def456\nparent ghi789\nauthor John Doe <john@example.com> 1622519072 +0000\ncommitter John Doe <john@example.com> 1622519072 +0000\n\nInitial commit\n".to_vec();
    assert_eq!(bytes, expected);
}

#[test]
fn test_commit_object_to_bytes() {
    let author = john();
    let content = CommitContent {
        tree_sha: String::from("abc123"),
        parent_sha: vec![String::from("def456"), String::from("ghi789")],
        author: author.clone(),
        committer: author.clone(),
        message: String::from("Initial commit"),
    };
    let commit_object = CommitObject::new(content.clone());
    let mut expected = Vec::new();
    expected.extend_from_slice(
        ObjectHeader { object_type: ObjectType::Commit, size: content.to_bytes().len() }
            .to_bytes()
            .as_slice(),
    );
    expected.extend_from_slice(content.to_bytes().as_slice());
    assert_eq!(commit_object.to_bytes(), expected);
}

#[test]
fn test_object_header_to_bytes() {
    let header = ObjectHeader { object_type: ObjectType::Blob, size: 10 };
    assert_eq!(header.to_bytes(), b"blob 10\0");
}

#[test]
fn test_object_header_try_from() {
    let header = ObjectHeader { object_type: ObjectType::Blob, size: 10 };
    let bytes = header.to_bytes();
    assert_eq!(ObjectHeader::try_from(bytes).unwrap(), header);
}

#[test]
fn test_tree_entry_from() {
    let data = b"100644 file.txt\0".to_vec();
    let entry = TreeEntry::try_from(data.clone()).unwrap();
    assert_eq!(entry.mode, 100644);
    assert_eq!(entry.name, "file.txt");
}

#[test]
fn object_type_names() {
    assert_eq!(ObjectType::Blob.to_string(), "blob");
    assert_eq!(ObjectType::Tree.to_string(), "tree");
    assert_eq!(ObjectType::Commit.to_string(), "commit");
    assert_eq!(ObjectType::Commit.len(), 6);
    assert!(!ObjectType::Tree.is_empty());
}

#[test]
fn header_size_counts_digits() {
    let header = ObjectHeader { object_type: ObjectType::Commit, size: 1234 };
    assert_eq!(header.header_size(), 12);
    assert_eq!(header.to_bytes(), b"commit 1234\0");
}

#[test]
fn header_errors() {
    assert_eq!(ObjectHeader::try_from(b"blub 5\0hello".to_vec()), Err(DecodeError::InvalidHeader));
    assert_eq!(ObjectHeader::try_from(b"blo".to_vec()), Err(DecodeError::InvalidHeader));
    assert_eq!(ObjectHeader::try_from(b"blob x\0".to_vec()), Err(DecodeError::InvalidHeader));
    assert_eq!(ObjectHeader::try_from(b"blob 5hello".to_vec()), Err(DecodeError::InvalidHeader));
    assert_eq!(
        ObjectHeader::try_from(b"blob 99999999999999999999999\0".to_vec()),
        Err(DecodeError::InvalidSize)
    );
}

#[test]
fn header_lenient_forms() {
    let blob0 = ObjectHeader { object_type: ObjectType::Blob, size: 0 };
    assert_eq!(ObjectHeader::try_from(b"blob \0".to_vec()), Ok(blob0));
    assert_eq!(ObjectHeader::try_from(b"blob".to_vec()), Ok(blob0));
    assert_eq!(
        ObjectHeader::try_from(b"blob 12".to_vec()),
        Ok(ObjectHeader { object_type: ObjectType::Blob, size: 12 })
    );
    assert_eq!(
        ObjectHeader::try_from(b"blob_7\0".to_vec()),
        Ok(ObjectHeader { object_type: ObjectType::Blob, size: 7 })
    );
    assert_eq!(
        ObjectHeader::try_from(b"tree 0\0".to_vec()),
        Ok(ObjectHeader { object_type: ObjectType::Tree, size: 0 })
    );
}

#[test]
fn blob_payload_sliced_by_size() {
    let b = BlobObject::try_from(b"blob 3\0hello".to_vec()).unwrap();
    assert_eq!(b.header.size, 3);
    assert_eq!(b.data, b"hel".to_vec());
    let e = BlobObject::try_from(b"blob 0\0x".to_vec()).unwrap();
    assert!(e.data.is_empty());
    let r = BlobObject::try_from(b"blob 9\0x".to_vec());
    assert!(matches!(r, Err(DecodeError::SizeMismatch)));
}

#[test]
fn blob_round_trip_bytes() {
    let blob = BlobObject::new(b"some \0 bytes\n".to_vec());
    let decoded = BlobObject::try_from(blob.to_bytes()).unwrap();
    assert_eq!(decoded.header, blob.header);
    assert_eq!(decoded.data, blob.data);
}

#[test]
fn blob_hash_of_hello() {
    let blob = BlobObject::new(b"hello".to_vec());
    assert_eq!(blob.to_bytes(), b"blob 5\0hello".to_vec());
    assert_eq!(dgit2::traits::Hash::hash(&blob), H1);
}

#[test]
fn tree_entry_encoding_uses_raw_hash() {
    let e = entry(MODE_FILE, "a.txt", H1);
    let bytes = e.to_bytes();
    let mut expected = b"100644 a.txt\0".to_vec();
    expected.extend_from_slice(&[
        0xb6, 0xfc, 0x4c, 0x62, 0x0b, 0x67, 0xd9, 0x5f, 0x95, 0x3a, 0x5c, 0x1c, 0x12, 0x30, 0xaa,
        0xab, 0x5d, 0xb5, 0xa1, 0xb0,
    ]);
    assert_eq!(bytes, expected);
    assert_eq!(e.len(), 33);
    assert!(!e.is_empty());
    let back = TreeEntry::try_from(bytes).unwrap();
    assert_eq!(back.hash, H1);
    assert_eq!(back.name, "a.txt");
    assert_eq!(back.mode, MODE_FILE);
}

#[test]
fn tree_entry_errors() {
    assert!(matches!(TreeEntry::try_from(b"100644 file.txt".to_vec()), Err(DecodeError::InvalidEntry)));
    assert!(matches!(TreeEntry::try_from(b"100644file.txt\0".to_vec()), Err(DecodeError::InvalidEntry)));
    assert!(matches!(TreeEntry::try_from(b"10a644 f\0".to_vec()), Err(DecodeError::InvalidMode)));
    assert!(matches!(TreeEntry::try_from(b" f\0".to_vec()), Err(DecodeError::InvalidMode)));
    assert!(matches!(TreeEntry::try_from(b"99999999999 f\0".to_vec()), Err(DecodeError::InvalidMode)));
    assert!(matches!(TreeEntry::try_from(b"100644 \xff\xfe\0".to_vec()), Err(DecodeError::InvalidName)));
}

#[test]
fn tree_round_trip_bytes() {
    let tree = TreeObject::from_entries(vec![
        entry(MODE_DIRECTORY, "sub", H2),
        entry(MODE_FILE, "a.txt", H1),
    ]);
    assert_eq!(tree.header.object_type, ObjectType::Tree);
    assert_eq!(tree.header.size, 33 + 30);
    assert_eq!(tree.entries[0].name, "a.txt");
    assert_eq!(tree.entries[1].name, "sub");
    let decoded = TreeObject::try_from(tree.to_bytes()).unwrap();
    assert_eq!(decoded.header, tree.header);
    assert_eq!(decoded.entries.len(), 2);
    for (a, b) in decoded.entries.iter().zip(tree.entries.iter()) {
        assert_eq!(a.mode, b.mode);
        assert_eq!(a.name, b.name);
        assert_eq!(a.hash, b.hash);
    }
}

#[test]
fn tree_hash_ignores_entry_order() {
    let header = ObjectHeader { object_type: ObjectType::Tree, size: 63 };
    let a = TreeObject {
        header,
        entries: vec![entry(MODE_FILE, "a.txt", H1), entry(MODE_DIRECTORY, "sub", H2)],
    };
    let b = TreeObject {
        header,
        entries: vec![entry(MODE_DIRECTORY, "sub", H2), entry(MODE_FILE, "a.txt", H1)],
    };
    assert_eq!(a.to_bytes(), b.to_bytes());
    assert_eq!(dgit2::traits::Hash::hash(&a), dgit2::traits::Hash::hash(&b));
}

#[test]
fn tree_orders_equal_names_by_hash() {
    let a = TreeObject::from_entries(vec![entry(MODE_FILE, "x", H2), entry(MODE_FILE, "x", H1)]);
    let b = TreeObject::from_entries(vec![entry(MODE_FILE, "x", H1), entry(MODE_FILE, "x", H2)]);
    assert_eq!(a.to_bytes(), b.to_bytes());
    assert_eq!(a.entries[0].hash, H1);
}

#[test]
fn empty_tree_encoding() {
    let t = TreeObject::from_entries(Vec::new());
    assert_eq!(t.to_bytes(), b"tree 0\0".to_vec());
    let d = TreeObject::try_from(b"tree 0\0".to_vec()).unwrap();
    assert!(d.entries.is_empty());
}

#[test]
fn commit_author_negative_timestamp() {
    let mut a = john();
    a.timestamp = -5;
    assert_eq!(a.to_bytes(), b"John Doe <john@example.com> -5 +0000".to_vec());
    a.timestamp = i64::MIN;
    assert_eq!(a.to_bytes(), b"John Doe <john@example.com> -9223372036854775808 +0000".to_vec());
}

#[test]
fn commit_without_parents() {
    let content = CommitContent {
        tree_sha: H1.to_string(),
        parent_sha: Vec::new(),
        author: john(),
        committer: john(),
        message: String::from("m"),
    };
    let c = CommitObject::new(content);
    let bytes = c.to_bytes();
    let body = format!(
        "tree {}\nauthor John Doe <john@example.com> 1622519072 +0000\ncommitter John Doe <john@example.com> 1622519072 +0000\n\nm\n",
        H1
    );
    let mut expected = format!("commit {}\0", body.len()).into_bytes();
    expected.extend_from_slice(body.as_bytes());
    assert_eq!(bytes, expected);
}

#[test]
fn compression_round_trip() {
    for data in [Vec::new(), b"hello".to_vec(), vec![7u8; 10000], (0..=255u8).collect::<Vec<u8>>()] {
        let mut store = ObjectStore::new();
        let blob = BlobObject::new(data.clone());
        let hash = blob.save_object(&mut store).unwrap();
        assert_ne!(store.value(0), &blob.to_bytes());
        assert_eq!(get_raw_object(&store, &hash).unwrap(), blob.to_bytes());
    }
}

#[test]
fn commit_decodes_back() {
    let mut author = john();
    author.timestamp = -42;
    let content = CommitContent {
        tree_sha: H1.to_string(),
        parent_sha: vec![H2.to_string(), H1.to_string()],
        author: author.clone(),
        committer: john(),
        message: String::from("first line\n\nbody with <angle> and > marks\n"),
    };
    let commit = CommitObject::new(content.clone());
    let back = CommitObject::try_from(commit.to_bytes()).unwrap();
    assert_eq!(back.header, commit.header);
    assert_eq!(back.content.tree_sha, content.tree_sha);
    assert_eq!(back.content.parent_sha, content.parent_sha);
    assert_eq!(back.content.author.name, "John Doe");
    assert_eq!(back.content.author.email, "john@example.com");
    assert_eq!(back.content.author.timestamp, -42);
    assert_eq!(back.content.author.timezone, "+0000");
    assert_eq!(back.content.committer.timestamp, 1622519072);
    assert_eq!(back.content.message, content.message);
}

#[test]
fn commit_decode_errors() {
    let bad = b"commit 9\0parent x\n".to_vec();
    assert!(matches!(CommitObject::try_from(bad), Err(DecodeError::InvalidCommit)));
    let short = b"commit 99\0tree x\n".to_vec();
    assert!(matches!(CommitObject::try_from(short), Err(DecodeError::SizeMismatch)));
    let body = b"tree x\nauthor a <e> 1 +0000\ncommitter a <e> 1 +0000\n\nm".to_vec();
    assert!(matches!(CommitContent::try_from(body), Err(DecodeError::InvalidCommit)));
    let body = b"tree x\nauthor a <e> 1 +0000\ncommitter a <e> 1 +0000\n\nm\n".to_vec();
    let c = CommitContent::try_from(body).unwrap();
    assert_eq!(c.message, "m");
    assert!(c.parent_sha.is_empty());
}
