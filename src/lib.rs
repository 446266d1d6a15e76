//! Aggregation of the log events of a timely dataflow computation into
//! per-worker and program-wide statistics, and a sort of collections by key
//! that stays correct under retractions.
pub mod weights;
pub mod sort;
pub mod collection;
pub mod ui;
pub mod program_stats;
pub mod args;
