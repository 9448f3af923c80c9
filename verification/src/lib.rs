//! A durable job orchestration core: a job lifecycle state machine, a pure
//! deterministic scheduler, an executor's outcome interpretation, a startup
//! recovery pass, and a job store realizing the repository contract — every
//! state change a conditional update paired with an append-only audit row.

pub mod codec;
pub mod executor;
pub mod failure;
pub mod job;
pub mod orchestrator;
pub mod recovery;
pub mod scheduler;
pub mod state;
pub mod store;
