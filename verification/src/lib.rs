//! An ordered symbol table (key-value map with order-preserving queries)
//! backed by a left-leaning red-black binary search tree.
//!
//! The tree is viewed as a `Map<K, V>`; every public operation carries a
//! contract over that view, and the ordered queries are specified against
//! the in-order key sequence. The color discipline (left-leaning red links,
//! no double reds, perfect black balance) is stated as a predicate that
//! `put` preserves; deletion uses plain splicing and is documented not to
//! preserve it.

pub mod laws;
pub mod model;
pub mod node;
pub mod order;
pub mod outline;
pub mod tree;
