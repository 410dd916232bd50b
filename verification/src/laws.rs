//! What holds of every traversal.

pub mod rewrite;
pub mod siblings;
pub mod trail;
pub mod walk;
