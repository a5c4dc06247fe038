//! Expansion of marked keys in tree-shaped rule documents.
//!
//! A rule document is a tree of mappings, sequences and scalars. A key of a mapping that holds
//! the marker `|expand` asks for its value to be expanded: a placeholder in the value is
//! replaced by each member of a list of replacements in turn, and the value becomes the
//! sequence of the texts so made.
//!
//! - [`tree`]: the document tree, its model, and its mappings.
//! - [`text`]: substring search and replacement.
//! - [`marker`]: the marker, and stripping it from a key.
//! - [`scan`]: marker discovery, the list of the marked keys of a mapping with their texts.
//! - [`rewrite`]: marker application, the document with keys stripped and values expanded.
//! - [`load`]: reading documents from YAML text.
//! - [`assoc`]: the ordered association lists that the contracts are stated over.
//! - [`marker_laws`], [`scan_laws`], [`rewrite_laws`]: what holds of stripping, scanning and
//!   rewriting.

pub mod assoc;
pub mod load;
pub mod marker;
pub mod marker_laws;
pub mod rewrite;
pub mod rewrite_laws;
pub mod scan;
pub mod scan_laws;
pub mod text;
pub mod tree;
