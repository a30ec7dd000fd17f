//! A local working copy of a hierarchical document collection backed by a
//! peer-synchronizable CRDT document store.
//!
//! The heart of the crate is the tree walker: starting from a configured
//! root folder it expands folder documents into their declared children,
//! visits every reachable document exactly once, tracks the full ancestor
//! path of each visit, and rejects structures in which an identifier is
//! reached twice. The store itself (merge machinery, persistence, transport)
//! is an outside collaborator; this crate consumes its results as plain
//! values.

pub mod doc_id;
pub mod doc_types;
pub mod doc_value;
pub mod store;
pub mod walker;
pub mod config;
