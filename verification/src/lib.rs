//! A persistent inverted index over the text of a file tree.
//!
//! The library holds the verified core: tokenization of document text, the
//! persistent multimap from folded token keys to document paths, the boolean
//! query evaluator, and the build pipeline's scheduling decisions. The
//! surrounding program performs the file and directory I/O and hands the
//! library plain strings.

pub mod fold;
pub mod index;
pub mod lines;
pub mod pipeline;
pub mod query;
pub mod store;
pub mod tokenize;
