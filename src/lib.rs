//! A hierarchical bit-vector index over a dense integer universe, with
//! successor and range queries.

pub mod bits;
pub mod error;
pub mod laws;
pub mod layered;
pub mod layout;
pub mod tree;

pub use error::SuccTreeError;
pub use tree::SuccTree;
