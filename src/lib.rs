pub mod arith;
pub mod engine;
pub mod error;
pub mod extension;
pub mod fixed;
pub mod pruning;
pub mod registration;
pub mod step;
pub mod sums;
pub mod weights;
