//! Telemetry ingestion pipeline for a board-monitor dashboard.
//!
//! The crate parses single-line textual telemetry reports into structured
//! samples, keeps a bounded rolling history of derived scalar series, and
//! drives the merge / interval-change protocol between a primary report
//! stream and a secondary utilization probe.

pub mod gpu;
pub mod laws;
pub mod model;
pub mod pipeline;
pub mod tegrastats;
pub mod ui;
