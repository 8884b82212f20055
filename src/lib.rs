//! A persistent ordered index: a red-black tree whose nodes live in one
//! memory-mapped region, addressed by position instead of by pointer.
//!
//! [`arena::Mem`] lays the region out as a node count, a root slot and a
//! dense array of fixed-size node records; [`rbtree::RBTree`] keeps unique
//! `u64` keys in those records. Growing and shrinking the region is left to
//! the owner of the backing file: an insertion that finds no room reports
//! it, and [`rbtree::RBTree::remap`] moves the tree into a larger or smaller
//! map; [`capacity`] proves that this doubling and halving keeps the region
//! the smallest doubling of [`LEAST_CAPACITY`] that holds the tree.

pub mod region;
pub mod arena;
pub mod shape;
pub mod order;
pub mod balance;
pub mod removal;
pub mod rbtree;
pub mod article;
pub mod msgs;
pub mod capacity;

pub use arena::{Mem, Node, HEADER_SIZE, NODE_SIZE};
pub use article::{ArticleContent, Author, Authors, Title, AUTHORS_CAP, AUTHOR_TEXT_CAP, TITLE_TEXT_CAP};
pub use msgs::{Add, Get, Remove, Search};
pub use rbtree::{AddError, OpenError, RBTree, LEAST_CAPACITY};
