//! Translation indexing and key resolution for internationalised source trees.
//!
//! The crate parses translation resources into a shared value tree, flattens
//! that tree into dotted keys, keeps a per-locale index of the results, finds
//! usages of keys in source text and classifies each usage against the index.
pub mod text;
pub mod tree;
pub mod php;
pub mod parser;
pub mod locale;
pub mod store;
pub mod location;
pub mod key_finder;
pub mod diagnostics;
pub mod config;
pub mod features;
