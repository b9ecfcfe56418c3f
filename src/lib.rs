//! Bounded concurrent task running, as decisions: which tasks to admit, how
//! outcomes are collected, joined, raced and folded.

pub mod runner;
pub mod join;
pub mod stages;
pub mod timing;
pub mod pipeline;
