//! A small layout compiler for a game engine's binary container format.
//!
//! The crate turns a tree of layout objects (raw bytes, aligned groups of
//! indexed fields, and pointer indirections) into one contiguous byte buffer,
//! resolving every pointer to a forward offset in a single breadth-first pass,
//! and maps a decoded document (entities with typed fields) onto such a tree.

pub mod allocator;
pub mod laws;
pub mod trb;
