//! A hierarchical store of short text units ("nodes").
//!
//! Each node is addressed by a deterministic 32-bit hash of its title, sibling
//! order is controlled by explicit `after` predecessor references, and a
//! dissection pipeline splits a document into ordered parts, materialises one
//! node per part, and validates that the created nodes reproduce the document
//! byte for byte.

pub mod config;
pub mod dissect;
pub mod error;
pub mod identity;
pub mod import;
pub mod node;
pub mod order;
pub mod store;
pub mod text;
pub mod tree;
