//! Splitting the pupils of a primary school into single-level and two-level
//! classes: configuration checks, a maximum-flow feasibility test and the
//! enumeration of class compositions.

pub mod config;
pub mod dinic;
pub mod flow;
pub mod report;
pub mod roster;
pub mod search;
pub mod strings;
pub mod sums;
