//! Storage and merge core for a content-addressed source-control backend.
//!
//! The crate is built from five pieces, leaves first: a key/value
//! [`blobstore`] with in-memory reference implementations and a
//! failure-injecting wrapper ([`failing`]), a concurrency-limited tree
//! [`traversal`] scheduler, the generic [`manifest`] tree model with its
//! [`path`] and [`path_tree`] helpers, a copy-on-write manifest overlay
//! with merge ([`memory_manifest`]), and a chunked, multi-alias content
//! store ([`filestore`]). Around them sit the byte-level [`codec`], the
//! bundle-part decoders ([`bundle`]), timestamps ([`datetime`]) and small
//! shared [`records`].

pub mod blobstore;
pub mod bundle;
pub mod codec;
pub mod datetime;
pub mod failing;
pub mod filestore;
pub mod manifest;
pub mod memory_manifest;
pub mod namemap;
pub mod path;
pub mod path_tree;
pub mod records;
pub mod traversal;
