//! Parsing of pipe-delimited blend-shape telemetry into three name-keyed tables.
pub mod table;
pub mod grammar;
pub mod record;
pub mod laws;
pub mod writer;
