//! A resource tracker for Linux: what the machine and one process tree use, sampled
//! at a steady interval.
//!
//! The crate holds everything that is decided or computed; reading the kernel,
//! writing lines and sleeping are left to the program around it.

pub mod accounting;
pub mod cgroup;
pub mod collector;
pub mod config;
pub mod cpu_time;
pub mod csv;
pub mod digits;
pub mod json;
pub mod laws;
pub mod metrics;
pub mod number;
pub mod numeral;
pub mod order;
pub mod power;
pub mod process;
pub mod shortest;
pub mod text;
pub mod tracker;
