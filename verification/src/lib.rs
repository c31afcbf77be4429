//! A hardware-portable execution layer for tensor data-movement kernels.
//!
//! The crate decouples operator semantics from device execution: tensor
//! layouts are described by dtype, shape and strides (each entry either
//! concrete or still unresolved), an operator plans its work by normalizing
//! the layouts into a minimal-dimension copy scheme, and launching is reduced
//! to a small set of dispatch parameters that a backend driver consumes.

pub mod cache;
pub mod dtype;
pub mod error;
pub mod layout;
pub mod pool;
pub mod reform;
pub mod rope;

pub use dtype::Dtype;
pub use error::{LaunchError, SchemeError};
pub use layout::{Extent, Stride, TensorLayout};
