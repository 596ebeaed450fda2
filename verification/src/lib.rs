//! Aggregation engine for timestamped, severity-levelled log events.
//!
//! Given a batch of parsed `(timestamp, severity)` pairs, the library selects
//! a bucket granularity from the observed span, generates a calendar-correct
//! sequence of bucket boundaries, counts events per bucket and severity level,
//! and trims the series so it never claims coverage past the last event.
//! Reading log files, extracting the timestamp and severity token from raw
//! lines, and rendering charts or reports are left to the surrounding
//! application.

pub mod analyse;
pub mod cli;
pub mod datetime;
pub mod plot;
pub mod report;
pub mod strutil;
