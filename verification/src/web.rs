//! The web dashboard: the state sent to browsers and who may see it.
pub mod project;
pub mod security;
pub mod state;
