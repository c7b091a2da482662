//! A verified simulator of multi-party set reconciliation.

pub mod simulator;
