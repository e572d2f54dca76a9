//! Aggregation of several iCalendar (RFC 5545) sources into one calendar feed.
//!
//! `ical` turns calendar text into its top-level components, `muxer` builds
//! one output document from the outcomes of a feed's sources, and `config`
//! holds the feed definitions and the registry that routes a path to a feed.

pub mod config;
pub mod ical;
pub mod muxer;
