//! What the operations are for: laws that relate what goes in to what comes out,
//! in terms of the numbers, names and texts that a user sees.

pub mod cgroup;
pub mod collector;
pub mod config;
pub mod csv;
pub mod json;
pub mod process;
pub mod tracker;
