//! Identity and content-addressing core of a change-centric version-control
//! system: content hashing, a deduplicating object store, a structural delta
//! engine over file trees, and a revision graph that keeps a stable change
//! identity across amendments.

pub mod bytes;
pub mod delta;
pub mod error;
pub mod graph;
pub mod hasher;
pub mod identity;
pub mod revision;
pub mod store;
pub mod tree;

pub use revision::{describe, ChangeId, Revision, RevisionId};
