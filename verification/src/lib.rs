//! Finds groups of byte-identical files under a directory tree.
//!
//! The library holds the traversal-and-hashing core: the breadth-first
//! walker over a queue of pending directories, the hidden-entry filter,
//! the streaming content hasher, and the fingerprint-to-path-list index.
//! Reading directories and file bytes is the caller's side; the caller
//! hands listings and byte chunks in, and takes the finished index back.

pub mod hasher;
pub mod index;
pub mod model;
pub mod traverse;
pub mod walk;
