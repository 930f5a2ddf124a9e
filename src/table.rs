//! Tables: the ground-truth logs that assign sequence numbers.
pub mod vec;

pub use vec::{VecTable, VecTableIterator};
