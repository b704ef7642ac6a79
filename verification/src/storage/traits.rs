//! What the three storage backends have in common.

use crate::disk::Disk;
use std::collections::HashMap;
use vstd::prelude::*;

verus! {

/// A storage backend: it takes the sorted records of a full write buffer
/// and answers lookups and scans from what it was given.
pub trait DiskStorage {
    /// The backend is in a state in which it can be used.
    spec fn ready(&self) -> bool;

    /// What a lookup of `key` returns on `disk`, where the pages that the
    /// backend has cached are those of `disk`.
    spec fn value_on(&self, disk: &Disk, key: i64) -> Option<i64>;

    /// What a scan for the keys from `start` to `end` leaves in `map`, where
    /// the pages that the backend has cached are those of `disk`.
    spec fn scan_on(&self, disk: &Disk, start: i64, end: i64, map: Map<i64, i64>) -> Map<
        i64,
        i64,
    >;

    /// The pages that the backend has cached are those of `disk`, and the
    /// files of the backend are sorted runs.
    spec fn in_step(&self, disk: &Disk) -> bool;

    /// The value under `key`, if the backend holds the key.
    fn get(&mut self, disk: &Disk, key: i64) -> (value: Option<i64>)
        requires
            old(self).ready(),
        ensures
            final(self).ready(),
            old(self).in_step(disk) ==> final(self).in_step(disk) && value == old(self).value_on(
                disk,
                key,
            ),
    ;

    /// Adds to `hash` the records whose keys lie from `start` to `end`, both
    /// included, except under keys that `hash` holds already.
    fn scan(&mut self, disk: &Disk, start: i64, end: i64, hash: &mut HashMap<i64, i64>)
        requires
            old(self).ready(),
        ensures
            final(self).ready(),
            old(self).in_step(disk) ==> final(self).in_step(disk) && final(hash)@ == old(
                self,
            ).scan_on(disk, start, end, old(hash)@),
    ;

    /// Writes the records of `contents`, which are sorted by key, as a new
    /// run; `sst_count` is the number of runs written so far.
    fn flush(&mut self, disk: &mut Disk, sst_count: u32, contents: Vec<(i64, i64)>)
        requires
            old(self).ready(),
            old(self).can_flush(contents@.len()),
        ensures
            final(self).ready(),
    ;

    /// The backend can take a run of `records` records.
    spec fn can_flush(&self, records: nat) -> bool;
}

} // verus!
