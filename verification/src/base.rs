//! Types and helpers shared by every other module.
pub mod bus;
pub mod error;
pub mod labels;
pub mod mode;
pub mod named;
pub mod path;
pub mod queue;
pub mod registry;
pub mod reports;
pub mod ring;
pub mod text;
pub mod types;
pub mod value;
