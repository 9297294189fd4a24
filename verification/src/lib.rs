//! Training observability: metric events, their wire and file forms, the
//! statistics derived from them, and the state behind the terminal and web
//! dashboards.
use vstd::prelude::*;

pub mod base;
pub mod cli;
pub mod engine;
pub mod ingest;
pub mod store;
pub mod tui;
pub mod web;

verus! {

/// The library's version, as the `--version` flag prints it.
pub fn emry_version() -> (v: &'static str)
    ensures
        v@ == "0.1.0"@,
{
    "0.1.0"
}

} // verus!
