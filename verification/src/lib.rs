//! Estimates how a repository's stored size grew over its history from a
//! small, chronologically spread set of sampled revisions.
//!
//! The crate holds the decisions of that pipeline: the chronological index of
//! the revisions, the plan of dated sample points, the reading of the size
//! queries' text output, and the bookkeeping that puts concurrently measured
//! results back into date order. Running the queries is left to the caller.

pub mod calendar;
pub mod error;
pub mod history;
pub mod measure;
pub mod planner;
pub mod report;
pub mod repository;
pub mod schedule;
pub mod sorting;
pub mod text;
