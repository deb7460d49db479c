//! Extra-time accounting for a worker's time-tracking entries: entries are
//! grouped by calendar day, compared against a daily baseline, accumulated in
//! chronological order, and shaped into an aligned tabular report.
use vstd::prelude::*;

pub mod aggregate;
pub mod day;
pub mod duration;
pub mod sheet;
pub mod text;

verus! {

} // verus!
