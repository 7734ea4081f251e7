//! Merge tree over layered configuration documents.
//!
//! Several documents, each a tree of nested mappings that ends in scalar or
//! sequence leaves, are ingested into one tree that records at every node
//! which files contributed it. From that tree the distinct combinations of
//! files are discovered, and for each combination the part of the merged
//! structure that belongs to exactly that combination is rebuilt.
//!
//! - [`document`] reads a document from a YAML value and writes one back.
//! - [`coverage`] holds the sets of files that cover a node.
//! - [`model`] is the mathematical model of the tree: what ingestion,
//!   combination discovery and reconstruction compute.
//! - [`tree`] is the tree itself, proved to do what the model says.
//! - [`combos`] orders the combinations.
//! - [`invariants`], [`idempotence`], [`views`] and [`single_file`] prove what
//!   holds of every tree.
//! - [`yaml`] names what the library takes on trust from `serde_yaml`.

pub mod combos;
pub mod coverage;
pub mod document;
pub mod error;
pub mod idempotence;
pub mod invariants;
pub mod model;
pub mod search;
pub mod single_file;
pub mod tree;
pub mod views;
pub mod yaml;
