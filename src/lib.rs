//! A B-tree map whose records live in slots handed out by two slab
//! allocators, one for interior records and one for leaves, fed from
//! caller-supplied chunks of memory.
pub mod slab;
pub mod node;
pub mod inorder;
mod insert;
mod lookup;
mod remove;
pub mod btree;
pub mod ref_stack;

pub use btree::BTree;
pub use node::KVPair;
pub use ref_stack::RefStack;
pub use slab::{SlabAllocator, SlabBox};
