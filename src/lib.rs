//! A content-addressed object store in the style of Git, with the
//! reconciliation logic that keeps it in step with a remote registry.
pub mod blob;
pub mod bytes;
pub mod commit;
pub mod commit_decode;
pub mod config;
pub mod digest;
pub mod error;
pub mod git_config;
pub mod header;
pub mod refs;
pub mod repo;
pub mod store;
pub mod sync;
pub mod text;
pub mod traits;
pub mod tree;
pub mod worktree;
