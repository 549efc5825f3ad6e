//! Core of a work-session tracker: parses an append-only log of
//! clock-in/clock-out markers into sessions, projects them into a target
//! timezone, splits them at local midnights, and aggregates them into daily,
//! weekly, monthly, per-category and time-of-day reports.

use vstd::prelude::*;

pub mod binnacle;
pub mod binnacle_body_parser;
pub mod dates;
pub mod format_util;
pub mod histogram;
pub mod parser;
pub mod summary;
pub mod text;

verus! {

} // verus!
