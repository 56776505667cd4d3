//! The commitment tree and the summation tree of the aggregation round.
pub mod merkle;
pub mod node;
pub mod order;
pub mod tree;
