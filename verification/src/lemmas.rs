//! Facts about the model that the executable code and the laws rest on.

pub mod carve;
pub mod merge;
pub mod order;
pub mod total;
pub mod walk;
