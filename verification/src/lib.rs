//! An in-memory hierarchical file store with slash-delimited paths, a
//! per-user session layer that resolves relative paths against a working
//! directory, and a small binary command codec for driving the store over a
//! wire protocol.

pub mod command;
pub mod errors;
pub mod paths;
pub mod session;
pub mod system;
pub mod trie;
