//! Content-addressable digests for files and directory trees in Git's exact
//! object encoding: blob and tree framing, the tree sort order, a pluggable
//! hasher, and a streaming walk that resolves each directory exactly once.

pub mod constants;
pub mod digest;
pub mod error;
pub mod fs;
pub mod hex;
pub mod id;
pub mod laws;
pub mod object;
pub mod optional;
pub mod path;
pub mod views;
pub mod walk;
