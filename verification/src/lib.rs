//! Leave-period consolidation and return-date engine.
//!
//! Turns a flat list of possibly-fragmented leave records into one merged
//! "currently away" interval per employee, computes when each person is
//! expected back (skipping weekends), and groups and orders the results
//! into a structured message document.

pub mod auth;
pub mod date;
pub mod merge;
pub mod records;
pub mod render;
pub mod text;
