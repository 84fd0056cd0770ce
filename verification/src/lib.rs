//! Deduplicating photo-organizer planner.
//!
//! Given a batch of scanned files (path, content bytes, filesystem date),
//! the planner drops byte-identical duplicates and maps every unique file
//! to a destination path of the form `out_dir/<year>/<month>/<name>`,
//! deconflicting clashing destinations with `-1`, `-2`, ... suffixes.

use vstd::prelude::*;

pub mod actions;
pub mod date;
pub mod digest;
pub mod laws;
pub mod options;
pub mod pathstr;
pub mod scan;

verus! {

} // verus!
