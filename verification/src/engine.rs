//! What is derived from the event stream, and the run that produces it.
pub mod anomaly;
pub mod pipeline;
pub mod processor;
pub mod session;
pub mod stats;
pub mod throughput;
