//! A verified engine for computing and querying descendant (child)
//! relationships among the commits of a version-control repository.
//!
//! A repository records only parent pointers. This crate discovers the set
//! of commits reachable from the repository's reference tips, inverts the
//! parent-only DAG into a bidirectional adjacency structure, and answers
//! queries over it: children of a commit, reference roots, and "lost"
//! commits that no reference can reach.
//!
//! The commit store is modeled as plain data ([`store::Store`]): callers
//! read the repository's object database and hand the engine commit ids
//! (as small integers), parent lists, timestamps and reference tips.

pub mod calculate;
pub mod graph;
pub mod render;
pub mod store;
