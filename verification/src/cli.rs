//! The command line: what each command means, and what it prints.
pub mod args;
pub mod demo;
pub mod report;
pub mod wrap;
