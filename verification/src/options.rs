//! Configuration consumed by the planner.

use vstd::prelude::*;

verus! {

/// Options that steer a planning run.
///
/// `fast_hash` selects quick (prefix-only) fingerprints for the bucketing
/// pass; `ignore_exif` disables embedded-metadata dating; `in_dir` and
/// `out_dir` are the scan root and the destination root.
pub struct Options {
    pub fast_hash: bool,
    pub dry_run: bool,
    pub ignore_exif: bool,
    pub out_script: bool,
    pub in_dir: String,
    pub out_dir: String,
}

/// The baseline configuration: quick fingerprints, embedded metadata
/// honoured, script output, empty directories.
pub fn default() -> (r: Options)
    ensures
        r.fast_hash == true,
        r.dry_run == false,
        r.ignore_exif == false,
        r.out_script == true,
        r.in_dir@ == Seq::<char>::empty(),
        r.out_dir@ == Seq::<char>::empty(),
{
    Options {
        fast_hash: true,
        dry_run: false,
        ignore_exif: false,
        out_script: true,
        in_dir: String::new(),
        out_dir: String::new(),
    }
}

} // verus!
