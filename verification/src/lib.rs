//! Classifies the entries of a filesystem tree against named tags.
//!
//! A tag is a list of path-matching rules; tags may reference other tags.
//! The rules are compiled into a path-segment-indexed rule tree, the tree
//! resolves the effective rules for any visited path, and a per-entry
//! evaluator turns rules and entry metadata into match verdicts that a
//! combinator merges into the final emit decision.

pub mod bytes;
pub mod compile;
pub mod config;
pub mod engine;
pub mod eval;
pub mod laws;
pub mod path;
pub mod tree;
