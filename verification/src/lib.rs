//! Completion support for dependency declarations in a package manifest.
//!
//! The crate has three parts: a context resolver that classifies a cursor
//! position inside raw manifest text, an index cache that maps package
//! names to their known versions and tracks its own refresh cycle, and a
//! completion engine that composes the two into a list of suggestions.
//! All text handling is by character offset, never by byte offset.

pub mod cache;
pub mod engine;
pub mod order;
pub mod resolver;
pub mod text;
