//! Master/worker orchestration engine for distributing a pre-extracted list of
//! download jobs across a pool of worker processes.
//!
//! The crate covers the coordination core: the length-framed wire codec, the
//! batch-distribution queue, the per-connection session state machine, the
//! progress/completion sink, and the supervisor's spawn plan. Transport,
//! process spawning, persistence and rendering are external collaborators
//! driven by a thin unverified shell.

pub mod codec;
pub mod msg;
pub mod progress;
pub mod queue;
pub mod session;
pub mod store;
pub mod supervisor;
