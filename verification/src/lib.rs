//! Audit a resolved npm dependency tree against a denylist of compromised
//! package identities.
//!
//! The library has two independent parts: a parser that turns denylist text
//! into a structured set of exact `(name, version)` pairs and bare names, and
//! a matcher that flattens a dependency-tree document into a deduplicated,
//! sorted list of `(name, version)` occurrences and classifies each one
//! against the parsed denylist.
pub mod denylist;
pub mod matcher;
pub mod order;
pub mod report;
pub mod text;
pub mod tree;
