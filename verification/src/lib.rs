//! A flat, key-addressed trie over sequences of elements.
//!
//! Nodes live in one flat store and name their children by key, so no node
//! points at another. The key of a node is the path that leads to it. For
//! "cat" and "cow" the store holds
//!
//! ```text
//! [c]       children [c,a] and [c,o]
//! [c,a]     children [c,a,t]
//! [c,a,t]   terminal
//! [c,o]     children [c,o,w]
//! [c,o,w]   terminal
//! ```
//!
//! and the start keys are `[c]`.
pub mod element;
pub mod found;
pub mod iter;
pub mod key;
pub mod laws;
pub mod node;
pub mod noop_hash;
pub mod order;
pub mod prune;
pub mod remove;
pub mod search;
pub mod shape;
pub mod store;
pub mod trie;

pub use element::Element;
pub use found::Found;
pub use iter::TrieIter;
pub use node::Node;
pub use noop_hash::{NoopBuildHasher, NoopHasher, PreHashedMap};
pub use remove::Remove;
pub use store::FlatStore;
pub use trie::Trie;
