//! The two backends that write one file for each flush.

use crate::buffer::{BufferPool, CacheEntry, coherent, names_within};
use crate::disk::Disk;
use crate::page::{pages_image, storable};
use crate::path::{db_prefix_text, lemma_sst_paths, sst_path, sst_path_text};
use crate::records::{entries_map, keys_ascend};
use crate::sst::{
    appended, dir_ok, file_run, fits_in_file, get_value_ssts, is_run, lemma_chunks_map,
    lemma_dir_after_append, lemma_fresh_run, lemma_newest_value, lemma_runs_built,
    lemma_stored_frame, newest_value, run_of, runs_ascend, runs_built, scan_runs, scan_ssts,
    serialize_kv_to_file, stored,
};
use crate::storage::btree::{
    btree_image, convert_sorted_arr_to_b_tree_arr_and_serialize, get_b_tree_ssts, is_tree,
    lemma_fresh_tree, lemma_fresh_tree_of, lemma_newest_tree_value, lemma_stored_trees_frame,
    lemma_trees_built, newest_tree_value, scan_b_tree_ssts, scan_trees, stored_trees, trees_built,
    trees_shaped,
};
use crate::storage::merge::{avoids, lemma_append_keeps_coherent};
use crate::storage::traits::DiskStorage;
use std::collections::HashMap;
use vstd::prelude::*;

verus! {

/// The append-only backend: each flush writes one sorted run.
pub struct AppendOnlyLog {
    name: String,
}

impl AppendOnlyLog {
    /// The name of the database.
    pub closed spec fn spec_name(&self) -> Seq<char> {
        self.name@
    }

    /// The backend of the database `name`.
    pub fn new(name: String) -> (log: Self)
        ensures
            log.spec_name() == name@,
    {
        Self { name }
    }

    /// The number of runs that `disk` holds for the database.
    pub open spec fn runs_on(&self, disk: &Disk) -> nat {
        disk.count_under(db_prefix_text(self.spec_name()))
    }

    /// The directory of the database holds the runs `0` to `runs - 1` and
    /// no other file, and each of them is a sorted run.
    pub open spec fn sound(&self, disk: &Disk, runs: nat) -> bool {
        dir_ok(disk, self.spec_name(), runs) && runs_built(disk@, self.spec_name(), runs)
    }

    /// The records that the backend holds: under each key the value of the
    /// newest run that holds it.
    pub open spec fn contents(&self, disk: &Disk, runs: nat) -> Map<i64, i64> {
        stored(disk@, self.spec_name(), runs)
    }
}

impl DiskStorage for AppendOnlyLog {
    open spec fn ready(&self) -> bool {
        true
    }

    open spec fn value_on(&self, disk: &Disk, key: i64) -> Option<i64> {
        newest_value(disk@, self.spec_name(), self.runs_on(disk), key)
    }

    open spec fn scan_on(&self, disk: &Disk, start: i64, end: i64, map: Map<i64, i64>) -> Map<
        i64,
        i64,
    > {
        scan_runs(disk@, self.spec_name(), self.runs_on(disk), start, end, map)
    }

    open spec fn in_step(&self, disk: &Disk) -> bool {
        runs_ascend(disk@, self.spec_name(), self.runs_on(disk))
    }

    open spec fn can_flush(&self, records: nat) -> bool {
        fits_in_file(records)
    }

    fn get(&mut self, disk: &Disk, key: i64) -> (value: Option<i64>)
        ensures
            final(self).spec_name() == old(self).spec_name(),
            old(self).sound(disk, old(self).runs_on(disk)) ==> value == if old(self).contents(
                disk,
                old(self).runs_on(disk),
            ).contains_key(key) {
                Some(old(self).contents(disk, old(self).runs_on(disk))[key])
            } else {
                None
            },
    {
        proof {
            lemma_newest_value(disk@, self.spec_name(), self.runs_on(disk), key);
            if self.sound(disk, self.runs_on(disk)) {
                lemma_runs_built(disk@, self.spec_name(), self.runs_on(disk));
            }
        }
        get_value_ssts(disk, self.name.as_str(), key)
    }

    fn scan(&mut self, disk: &Disk, start: i64, end: i64, hash: &mut HashMap<i64, i64>)
        ensures
            final(self).spec_name() == old(self).spec_name(),
            old(self).sound(disk, old(self).runs_on(disk)) ==> final(hash)@ == old(self).scan_on(
                disk,
                start,
                end,
                old(hash)@,
            ),
    {
        proof {
            if self.sound(disk, self.runs_on(disk)) {
                lemma_runs_built(disk@, self.spec_name(), self.runs_on(disk));
            }
        }
        scan_ssts(disk, self.name.as_str(), start, end, hash);
    }

    fn flush(&mut self, disk: &mut Disk, sst_count: u32, contents: Vec<(i64, i64)>)
        ensures
            final(self).spec_name() == old(self).spec_name(),
            final(disk)@ == appended(
                old(disk)@,
                sst_path_text(old(self).spec_name(), sst_count as nat),
                pages_image(contents@),
            ),
            old(self).sound(old(disk), sst_count as nat) && keys_ascend(contents@) && storable(
                contents@,
            ) ==> final(self).sound(final(disk), sst_count as nat + 1) && final(self).contents(
                final(disk),
                sst_count as nat + 1,
            ) == old(self).contents(old(disk), sst_count as nat).union_prefer_right(
                entries_map(contents@),
            ),
    {
        let file_path: String = sst_path(self.name.as_str(), sst_count as usize);
        disk.note_names();
        serialize_kv_to_file(disk, file_path.as_str(), &contents);
        proof {
            let db = self.spec_name();
            let runs = sst_count as nat;
            if old(self).sound(old(disk), runs) && keys_ascend(contents@) && storable(contents@) {
                lemma_dir_after_append(old(disk), disk, db, runs, pages_image(contents@));
                lemma_fresh_run(disk@, sst_path_text(db, runs), contents@);
                lemma_stored_frame(old(disk)@, disk@, db, runs);
                lemma_chunks_map(contents@);
                assert forall|i: nat| i < runs + 1 implies is_run(
                    #[trigger] file_run(disk@, sst_path_text(db, i)),
                ) by {
                    if i < runs {
                        assert(file_run(disk@, sst_path_text(db, i)) == file_run(
                            old(disk)@,
                            sst_path_text(db, i),
                        ));
                        assert(is_run(file_run(old(disk)@, sst_path_text(db, i))));
                    } else {
                        assert(run_of(file_run(disk@, sst_path_text(db, runs)), contents@));
                    }
                }
            }
        }
    }
}

/// The search-tree backend: each flush writes one file that holds a search
/// tree over the sorted records.
pub struct BTree {
    name: String,
    pool: BufferPool,
}

impl BTree {
    /// The name of the database.
    pub closed spec fn spec_name(&self) -> Seq<char> {
        self.name@
    }

    /// The pages that the backend has cached.
    pub closed spec fn cached(&self) -> Seq<CacheEntry> {
        self.pool@
    }

    /// The page cache is well formed.
    pub closed spec fn wf(&self) -> bool {
        self.pool.wf()
    }

    /// The backend of the database `name`, with a page cache that may hold
    /// `buffer_pool_size` pages.
    pub fn new(name: String, buffer_pool_size: usize) -> (tree: Self)
        ensures
            tree.wf(),
            tree.spec_name() == name@,
            tree.cached() == Seq::<CacheEntry>::empty(),
    {
        Self { name, pool: BufferPool::new(buffer_pool_size) }
    }

    /// The number of runs that `disk` holds for the database.
    pub open spec fn runs_on(&self, disk: &Disk) -> nat {
        disk.count_under(db_prefix_text(self.spec_name()))
    }

    /// The paths of the runs `0` to `runs - 1`.
    pub open spec fn run_names(&self, runs: nat) -> Set<Seq<char>> {
        Set::new(
            |n: Seq<char>| exists|j: nat| j < runs && n == #[trigger] sst_path_text(self.spec_name(), j),
        )
    }

    /// The directory of the database holds the runs `0` to `runs - 1` and
    /// no other file, each run is a search tree whose pages are sorted, and
    /// the cache holds pages of these runs only, as the files hold them.
    pub open spec fn sound(&self, disk: &Disk, runs: nat) -> bool {
        &&& dir_ok(disk, self.spec_name(), runs)
        &&& trees_built(disk@, self.spec_name(), runs)
        &&& coherent(self.cached(), *disk)
        &&& names_within(self.cached(), self.run_names(runs))
    }

    /// The records that the backend holds: under each key the value of the
    /// newest tree that holds it.
    pub open spec fn contents(&self, disk: &Disk, runs: nat) -> Map<i64, i64> {
        stored_trees(disk@, self.spec_name(), runs)
    }
}

impl DiskStorage for BTree {
    open spec fn ready(&self) -> bool {
        self.wf()
    }

    open spec fn value_on(&self, disk: &Disk, key: i64) -> Option<i64> {
        newest_tree_value(disk@, self.spec_name(), self.runs_on(disk), key)
    }

    open spec fn scan_on(&self, disk: &Disk, start: i64, end: i64, map: Map<i64, i64>) -> Map<
        i64,
        i64,
    > {
        scan_trees(disk@, self.spec_name(), self.runs_on(disk), start, end, map)
    }

    open spec fn in_step(&self, disk: &Disk) -> bool {
        coherent(self.cached(), *disk) && trees_shaped(disk@, self.spec_name(), self.runs_on(disk))
    }

    open spec fn can_flush(&self, records: nat) -> bool {
        fits_in_file(records)
    }

    fn get(&mut self, disk: &Disk, key: i64) -> (value: Option<i64>)
        ensures
            final(self).spec_name() == old(self).spec_name(),
            old(self).sound(disk, old(self).runs_on(disk)) ==> final(self).sound(
                disk,
                old(self).runs_on(disk),
            ) && value == if old(self).contents(disk, old(self).runs_on(disk)).contains_key(key) {
                Some(old(self).contents(disk, old(self).runs_on(disk))[key])
            } else {
                None
            },
    {
        proof {
            lemma_newest_tree_value(disk@, self.spec_name(), self.runs_on(disk), key);
            if self.sound(disk, self.runs_on(disk)) {
                lemma_trees_built(disk@, self.spec_name(), self.runs_on(disk));
                assert(names_within(self.pool@, self.run_names(self.runs_on(disk))));
                assert forall|j: nat| j < self.runs_on(disk) implies self.run_names(
                    self.runs_on(disk),
                ).contains(#[trigger] sst_path_text(self.spec_name(), j)) by {}
            }
        }
        get_b_tree_ssts(disk, self.name.as_str(), key, &mut self.pool)
    }

    fn scan(&mut self, disk: &Disk, start: i64, end: i64, hash: &mut HashMap<i64, i64>)
        ensures
            final(self).spec_name() == old(self).spec_name(),
            old(self).sound(disk, old(self).runs_on(disk)) ==> final(self).sound(
                disk,
                old(self).runs_on(disk),
            ) && final(hash)@ == old(self).scan_on(disk, start, end, old(hash)@),
    {
        proof {
            if self.sound(disk, self.runs_on(disk)) {
                lemma_trees_built(disk@, self.spec_name(), self.runs_on(disk));
                assert(names_within(self.pool@, self.run_names(self.runs_on(disk))));
                assert forall|j: nat| j < self.runs_on(disk) implies self.run_names(
                    self.runs_on(disk),
                ).contains(#[trigger] sst_path_text(self.spec_name(), j)) by {}
            }
        }
        scan_b_tree_ssts(disk, self.name.as_str(), start, end, hash, &mut self.pool);
    }

    fn flush(&mut self, disk: &mut Disk, sst_count: u32, contents: Vec<(i64, i64)>)
        ensures
            final(self).spec_name() == old(self).spec_name(),
            final(self).cached() == old(self).cached(),
            final(disk)@ == appended(
                old(disk)@,
                sst_path_text(old(self).spec_name(), sst_count as nat),
                btree_image(contents@),
            ),
            old(self).sound(old(disk), sst_count as nat) && keys_ascend(contents@) && storable(
                contents@,
            ) ==> final(self).sound(final(disk), sst_count as nat + 1) && final(self).contents(
                final(disk),
                sst_count as nat + 1,
            ) == old(self).contents(old(disk), sst_count as nat).union_prefer_right(
                entries_map(contents@),
            ),
    {
        let file_path: String = sst_path(self.name.as_str(), sst_count as usize);
        disk.note_names();
        convert_sorted_arr_to_b_tree_arr_and_serialize(disk, file_path.as_str(), &contents);
        proof {
            let db = self.spec_name();
            let runs = sst_count as nat;
            let path = sst_path_text(db, runs);
            if old(self).sound(old(disk), runs) && keys_ascend(contents@) && storable(contents@) {
                lemma_dir_after_append(old(disk), disk, db, runs, btree_image(contents@));
                lemma_fresh_tree(disk@, path, contents@);
                lemma_fresh_tree_of(disk@, path, contents@);
                lemma_stored_trees_frame(old(disk)@, disk@, db, runs);
                assert forall|i: nat| i < runs + 1 implies is_tree(
                    #[trigger] file_run(disk@, sst_path_text(db, i)),
                ) by {
                    if i < runs {
                        assert(file_run(disk@, sst_path_text(db, i)) == file_run(
                            old(disk)@,
                            sst_path_text(db, i),
                        ));
                        assert(is_tree(file_run(old(disk)@, sst_path_text(db, i))));
                    }
                }
                assert(avoids(self.pool@, path)) by {
                    assert forall|i: int| 0 <= i < self.pool@.len() implies (
                    #[trigger] self.pool@[i]).name != path by {
                        assert(self.run_names(runs).contains(self.pool@[i].name));
                        let j = choose|j: nat|
                            j < runs && self.pool@[i].name == #[trigger] sst_path_text(db, j);
                        lemma_sst_paths(db, j, runs);
                    }
                }
                lemma_append_keeps_coherent(
                    self.pool@,
                    *old(disk),
                    *disk,
                    path,
                    btree_image(contents@),
                );
                assert forall|i: int| 0 <= i < self.pool@.len() implies self.run_names(
                    runs + 1,
                ).contains((#[trigger] self.pool@[i]).name) by {
                    assert(self.run_names(runs).contains(self.pool@[i].name));
                    let j = choose|j: nat|
                        j < runs && self.pool@[i].name == #[trigger] sst_path_text(db, j);
                    assert(j < runs + 1);
                }
            }
        }
    }
}

} // verus!
