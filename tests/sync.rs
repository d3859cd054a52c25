use dgit2::refs::{Ref, RefStore};
use dgit2::store::ObjectStore;
use dgit2::sync::{apply_remote_refs, count_missing, plan_pull, plan_push};

fn hashes(v: &[&str]) -> Vec<String> {
    v.iter().map(|s| s.to_string()).collect()
}

#[test]
fn push_uploads_only_unregistered() {
    let local = hashes(&["aa", "bb", "cc"]);
    let plan = plan_push(&local, &vec![true, false, true]).unwrap();
    assert_eq!(plan, vec![1]);
    assert_eq!(plan.len(), 1);
}

#[test]
fn push_rejects_mismatched_answer() {
    let local = hashes(&["aa", "bb"]);
    assert_eq!(plan_push(&local, &vec![true]), None);
}

#[test]
fn push_twice_uploads_nothing_more() {
    let local = hashes(&["aa", "bb", "cc"]);
    let mut registry: Vec<String> = vec!["cc".to_string()];
    let flags: Vec<bool> = local.iter().map(|h| registry.contains(h)).collect();
    let first = plan_push(&local, &flags).unwrap();
    assert_eq!(first, vec![0, 1]);
    for i in first {
        registry.push(local[i].clone());
    }
    let flags: Vec<bool> = local.iter().map(|h| registry.contains(h)).collect();
    assert!(plan_push(&local, &flags).unwrap().is_empty());
}

#[test]
fn pull_twice_downloads_nothing_more() {
    let mut store = ObjectStore::new();
    store.insert("aa".to_string(), vec![1]);
    let remote = hashes(&["aa", "bb", "cc", "bb"]);
    let plan = plan_pull(&store, &remote);
    assert_eq!(plan, vec![1, 2]);
    assert_eq!(count_missing(&store, &remote), 3);
    for i in plan {
        store.insert(remote[i].clone(), vec![2]);
    }
    assert!(plan_pull(&store, &remote).is_empty());
    assert_eq!(count_missing(&store, &remote), 0);
}

#[test]
fn remote_refs_overwrite_local() {
    let mut refs = RefStore::new();
    refs.insert("refs/heads/main".to_string(), b"old".to_vec());
    refs.insert("refs/tags/v1".to_string(), b"same".to_vec());
    let remote = vec![
        ("refs/heads/main".to_string(), b"new".to_vec()),
        ("refs/tags/v1".to_string(), b"same".to_vec()),
        ("refs/heads/dev".to_string(), b"dev".to_vec()),
    ];
    assert_eq!(apply_remote_refs(&mut refs, &remote), 2);
    assert_eq!(Ref::new("refs/heads/main").get_content(&refs), b"new".to_vec());
    assert_eq!(Ref::new("refs/heads/dev").get_content(&refs), b"dev".to_vec());
    assert_eq!(apply_remote_refs(&mut refs, &remote), 0);
}
