//! A directory-tree traversal engine: a work-list walker that emits a
//! filtered, depth-annotated, pre-order stream of entries, together with
//! the filter predicate, an empty-subtree pruner, and the line-prefix
//! helpers that turn the stream into connector glyphs.

pub mod config;
pub mod filter;
pub mod glob;
pub mod laws;
pub mod tree_printer;
pub mod pathiterator;
