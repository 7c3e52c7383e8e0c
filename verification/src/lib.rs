//! A persistent B-tree: the node-level core of ordered maps and sets.
//!
//! Nodes share their children through reference-counted handles, so a copy of
//! a tree is cheap and a mutation clones only the nodes on the path it walks.

pub mod consuming;
pub mod diff;
pub mod handle;
pub mod insert;
pub mod iter;
pub mod laws;
pub mod layout;
pub mod node;
pub mod order;
pub mod remove;
pub mod value;

pub use consuming::ConsumingIter;
pub use diff::{DiffItem, DiffIter};
pub use insert::Insert;
pub use iter::Iter;
pub use node::Node;
pub use remove::Remove;
pub use value::{BTreeValue, Pair};
