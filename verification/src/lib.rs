//! A library for keeping a log of tagged work sessions.
//!
//! The log records time intervals, each tagged with a named category. An
//! interval is open (in progress) or closed (with a recorded duration), and
//! its endpoints are normalized to quarter-hour boundaries. Boolean filters
//! over tagged intervals select entries for listing, aggregation and purging.

pub mod commands;
pub mod filter;
pub mod interval;
pub mod tags;
pub mod timelog;
