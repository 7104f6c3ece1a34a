//! A verified core for running jobs on a pool of browsers.
//!
//! The library decides; it performs no I/O. A caller launches and closes browsers, runs tasks and
//! sleeps, and tells a [`Cluster`] what came of it. Every method is one step of the cluster: its
//! contract gives the state after the step, over the model in [`model`], and says what the caller
//! has to do next. What holds of the cluster across steps is proved in [`laws`].
pub mod clock;
pub mod cluster;
pub mod error;
pub mod job;
pub mod laws;
pub mod model;
pub mod options;
pub mod permits;
pub mod worker;

pub use clock::Clock;
pub use cluster::{
    Accepted, Cluster, Failure, Fill, Launch, Look, Next, Pass, Received, Requeued, Retired, Retry,
    Round, Run, Spent, Start, Tried, WaitStep, Watch,
};
pub use error::{BrowserError, ErrorModel};
pub use job::JobEntry;
pub use options::{ClusterOptions, Nanos, QueueMode, WorkerOptions};
pub use worker::Worker;
