//! The runtime: dependency ordering, builder, supervision and shared state.
pub mod builder;
pub mod dag;
pub mod types;

pub use builder::RuntimeBuilder;
pub use types::{Runtime, RuntimeError, RuntimeHandle, ShutdownReason};
pub mod supervisor;
