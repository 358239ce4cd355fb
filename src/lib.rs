//! Critical-path scheduling of interdependent tasks.
//!
//! Task records are parsed into a task graph, two propagation passes give
//! every task its earliest and latest start, and `display_before` decides
//! the order in which a report lists the finished schedule.

mod error;
mod task;
mod scheduler;
mod schedule;
mod engine;
mod parse;
pub mod laws;
mod report;

pub use error::ScheduleError;
pub use task::Task;
pub use scheduler::Scheduler;
pub use parse::{line_ranges, parse_duration, split_ranges};
pub use report::name_precedes;
