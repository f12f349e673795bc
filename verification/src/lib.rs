//! An adaptive radix tree: a byte-keyed map whose inner nodes pick one of four
//! representations by their number of children and compress single-child
//! chains into a prefix kept in the node's header.
//!
//! `art` holds the map and the key encoding. `tree` says what a subtree holds
//! and looks keys up; `insert` and `remove` change the tree, splitting
//! compressed paths and merging nodes. `node` holds the child handle and the
//! terminal value, `inner` the four node shapes behind one type, and `sorted`,
//! `node48` and `node256` the shapes themselves.

pub mod art;
pub mod flags;
pub mod header;
pub mod inner;
pub mod insert;
pub mod node;
pub mod node256;
pub mod node48;
pub mod remove;
pub mod sorted;
pub mod tree;

pub use crate::art::{Encodable, InsertError, ART};
pub use crate::header::{NodeHeader, PREFIX_LEN};
pub use crate::inner::Inner;
pub use crate::node::{Node, NodeType, NodeV};
pub use crate::node256::Node256;
pub use crate::node48::Node48;
pub use crate::sorted::{Node16, Node4, SortedNode};
