//! A small service runtime: services declare their dependencies, the runtime
//! starts them in dependency order, watches them, and shuts them down.
//!
//! - deterministic startup order from a dependency graph (`runtime::dag`)
//! - shutdown through a shared cancellation token (`runtime::types`)
//! - supervision decisions as a state machine (`runtime::supervisor`)
//! - typed events through `event::Topic`
use vstd::prelude::*;

pub mod event;
pub mod runtime;
pub mod service;
pub mod util;

pub use event::{Topic, TopicClosed, TopicConfig};
pub use runtime::{Runtime, RuntimeBuilder, RuntimeError, RuntimeHandle, ShutdownReason};
pub use service::{ServiceContext, ServiceName, ServiceSpec, ServiceStartError};

verus! {
} // verus!
