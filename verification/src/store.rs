//! A run's files: what is written, when it is flushed, and how it is read back.
pub mod export;
pub mod meta;
pub mod runs;
pub mod sink;
pub mod writer;
