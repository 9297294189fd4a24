//! The terminal dashboard: chart drawing, the state it shows, and key handling.
pub mod app;
pub mod chart;
pub mod panel;
pub mod ui;
