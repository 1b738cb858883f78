//! Adaptive top-k extraction heap and the column type modifier it is used with.

pub mod binary_heap;
pub mod fast_heap;
pub mod heap;
pub mod typmod;
