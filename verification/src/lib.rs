//! Finds leaks of internal data in file access logs: the rules of the detector, with proofs.

pub mod calendar;
pub mod counting;
pub mod double;
pub mod draws;
pub mod explain;
pub mod features;
pub mod forest;
pub mod fusion;
pub mod generate;
pub mod groups;
pub mod hybrid;
pub mod incidents;
pub mod linking;
pub mod metrics;
pub mod order;
pub mod record;
pub mod text;
