//! Content-addressed build artifact synchronization.
//!
//! The crate models the core of a content-addressed build engine: stable
//! identifiers for blobs, recipes and artifacts, an in-process virtual file
//! system with dual-identity file ids, reference-graph closure, and the
//! protocol that reconciles locally baked artifacts with a registry.

pub mod blob;
pub mod codec;
pub mod digest;
pub mod fanout;
pub mod keyed;
pub mod recipe;
pub mod references;
pub mod reporter;
pub mod registry;
pub mod sync;
pub mod unpack;
pub mod vfs;
