//! An unbalanced binary search tree over `i32` keys.
//!
//! The tree supports insertion, depth computation, deletion with in-order
//! successor promotion, and a level-by-level snapshot of node values for
//! display layers. Every operation carries a contract relating the concrete
//! tree to its mathematical model, [`model::Bst`].

pub mod levels;
pub mod model;
pub mod tree;
