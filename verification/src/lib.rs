//! Enumeration of fixed-length lowercase names and the decision logic of a
//! worker pipeline that probes each name for availability and records the
//! available ones.

pub mod generator;
pub mod availability;
pub mod work;
pub mod worker;
pub mod aggregator;
