//! A red-black tree over `u32` keys: ordered storage with logarithmic-time
//! search, insertion and deletion, and a proved bound on the tree height.
//!
//! The tree is modelled by the spec functions in [`model`]: the set and the
//! in-order sequence of stored keys, the binary-search ordering, the color
//! discipline (no Red node has a Red child, the root is Black) and the
//! black-height balance.  Every public operation states in its contract how
//! it moves that model, and the laws in [`laws`] record the global
//! consequences: bounded height, sorted enumeration, exact size.

pub mod node;
pub mod model;
pub mod insertion;
pub mod deletion;
pub mod rbtree;
pub mod search;
pub mod laws;
pub mod render;
