//! Build-style task orchestration: tasks persist their output to targets,
//! depend on other tasks, and are driven to completion either one by one or
//! through a dependency graph whose ready frontiers run in parallel.
pub mod date;
pub mod error;
pub mod scheduler;
pub mod store;
pub mod target;
pub mod task;
