//! Passive VPS bandwidth observation: procfs counter parsing, a constant-space
//! windowed extremum filter, congestion-factor bookkeeping and bounded histories.

pub mod collector;
pub mod text;
pub mod estimator;
pub mod factors;
pub mod config;
pub mod history;
