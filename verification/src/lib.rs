//! Hydration of sparse catalog documents.
//!
//! A catalog stores many records ("items") that share common defaults with a
//! richer template ("base").  Only the differences are persisted; a full
//! document is reconstructed on read by recursively merging the item over the
//! base.  This crate holds the merge core: the [`TreeValue`] document model,
//! the [`hydrate`] operation, and proofs of its governing laws.

pub mod model;
pub mod value;
pub mod hydrate;
pub mod laws;

pub use value::{Member, MergeError, TreeValue};
pub use hydrate::{hydrate, magic_marker};
