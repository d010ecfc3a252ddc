//! A verified model of a commit-graph repository: commit-graph queries,
//! branch and tag tables, the semantic-commit text codec, and the HEAD and
//! remote state that an on-disk repository is read into before each
//! operation decides what to do.

pub mod codec;
pub mod error;
pub mod graph;
pub mod hash;
pub mod refs;
pub mod repo;
mod text;
