//! A fixed-priority task scheduler for a single core.
//!
//! The scheduler keeps a registry of task control blocks, one FIFO ready
//! queue per priority level and a queue of finished tasks whose reclamation
//! is deferred until the core no longer runs on their stacks. Every
//! operation is a bookkeeping step whose effect on the abstract state is
//! stated in its contract; the actual register switch is left to the caller,
//! which receives a [`model::ContextSwitch`] describing it.
pub mod consts;
pub mod task;
pub mod model;
pub mod scheduler;
pub mod laws;
