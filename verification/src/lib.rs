//! Host-side core of a compute-kernel dispatch engine for strided tensors.
//!
//! The crate holds the parts of the engine that are pure decisions and data
//! movement: the strided address model, launch geometry, the pipeline cache,
//! kernel descriptors, and an executable definition of every operation family
//! over plain slices. Element arithmetic is supplied by the caller as
//! functions, so the same definitions serve every element type.

pub mod cache;
pub mod dispatch;
pub mod elementwise;
pub mod error;
pub mod gemm;
pub mod indexing;
pub mod kernel;
pub mod layout;
pub mod reduce;
pub mod ternary;
