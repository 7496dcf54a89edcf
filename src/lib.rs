//! Top-k approximate matching of a query against a fixed table of names.

pub mod rank;
pub mod matcher;
pub mod command;
pub mod timestamp;
pub mod zones;
