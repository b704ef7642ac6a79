//! The log-structured merge tree: levels of runs that double in size, each
//! run a leaf file with an index file and a Bloom filter; a flush adds a run
//! at level 1, and two runs at one level are merged into one at the next.

use crate::buffer::{BufferPool, coherent, names_within};
use crate::disk::Disk;
use crate::filter::{
    Bitmap, BloomFilter, construct_filter, filter_bits, key_bits, lemma_filter_holds_keys,
};
use crate::page::{chunks, pages_image};
use crate::path::{internal_path, internal_path_text, leaf_path, leaf_path_text, lemma_lsm_paths};
use crate::records::{entries_map, index_of_key, keys_ascend};
use crate::sst::{appended, file_run, fits_in_file, lemma_run_of_image, serialize_kv_to_file};
use crate::storage::levels::{
    lemma_above, lemma_below, lemma_carry, lemma_low_zero_start, lemma_present, lemma_settle,
    level_in_reach, level_present, level_run, low_zero,
};
use crate::storage::merge::{
    avoids, keys_apart, lemma_append_keeps_coherent, lemma_merge_len, lemma_merge_newer,
    lemma_remove_keeps_coherent, merge_newer, merge_runs, merged_runs,
};
use crate::storage::part3btree::{
    index_pages, lemma_run_map, lemma_run_search, part3_create_b_tree_internal_file,
    part3_scan_b_tree_sst, part3_search_b_tree_sst, run_scan, run_search, run_shaped, with_index,
};
use crate::storage::runs::{
    cache_names, clean, lemma_clean, lemma_new_run, lemma_records_frame, lemma_records_same_levels,
    lemma_records_skip, lemma_run_frame, lemma_run_records, records_from, run_files_ok, run_ok,
    run_records, same_file, same_runs,
};
use crate::storage::traits::DiskStorage;
use std::collections::HashMap;
use vstd::arithmetic::power2::{lemma2_to64, lemma_pow2_unfold, pow2};
use vstd::prelude::*;

verus! {

/// The highest level that a tree can have.
pub const MAX_LEVEL: u32 = 32;

/// The number of filter slots: one for each level, and room to spare.
pub const FILTER_SLOTS: usize = 51;

/// The bits of a filter for each record.
pub const BITS_PER_ENTRY: u8 = 10;

/// The log-structured merge tree.
pub struct LSMTree {
    /// The directory of the tree's files.
    name: String,
    /// The page cache through which the index and leaf files are read.
    pool: BufferPool,
    /// The number of flushes so far; bit `L - 1` says whether level `L`
    /// holds a run.
    tree_size: u32,
    /// The filter of each level that holds a run.
    filters: Vec<Option<Bitmap>>,
    /// The number of records of a full write buffer.
    memtable_size: u32,
}

/// Whether level `level` holds a run after `tree_size` flushes.
fn has_level(tree_size: u32, level: u32) -> (present: bool)
    requires
        1 <= level <= 32,
    ensures
        present == level_present(tree_size, level as nat),
{
    (tree_size >> (level - 1)) & 1 == 1
}

/// Whether some level from `level` on holds a run after `tree_size` flushes.
fn reaches_level(tree_size: u32, level: u32) -> (reach: bool)
    requires
        1 <= level <= 32,
    ensures
        reach == level_in_reach(tree_size, level as nat),
{
    (tree_size >> (level - 1)) != 0
}

/// The number of the run that level `level` holds after `tree_size` flushes.
fn run_of_level(tree_size: u32, level: u32) -> (run: u32)
    requires
        1 <= level <= 32,
    ensures
        run == level_run(tree_size, level as nat),
{
    (tree_size >> (level - 1)) << (level - 1)
}

/// The greatest number of bits that a bitmap can have on this machine.
pub open spec fn most_bits() -> u64 {
    if 8 * (usize::MAX as int) < u64::MAX - 7 {
        (8 * (usize::MAX as int)) as u64
    } else {
        (u64::MAX - 7) as u64
    }
}

/// The number of bits of the filter of a run at level `level + 1`: ten for
/// each record that the level can hold, as far as the machine's sizes allow.
pub open spec fn merged_filter_size(level: u32, memtable_size: u32) -> u64 {
    let wanted = pow2_u128(level) * (memtable_size as u128) * 10;
    if wanted > most_bits() {
        most_bits()
    } else {
        wanted as u64
    }
}

/// Two to the power `level`.
pub open spec fn pow2_u128(level: u32) -> u128 {
    1u128 << (level as u128)
}

/// The number of bits of the filter of a run at level `level + 1`.
fn filter_size_for(level: u32, memtable_size: u32) -> (size: u64)
    requires
        1 <= level <= 32,
        memtable_size > 0,
    ensures
        size == merged_filter_size(level, memtable_size),
        size > 0,
        size + 7 <= u64::MAX,
        (size + 7) / 8 <= usize::MAX,
{
    let factor: u128 = 1u128 << (level as u128);
    assert(1 <= factor <= 0x1_0000_0000u128) by (bit_vector)
        requires
            factor == 1u128 << (level as u128),
            1 <= level <= 32,
    ;
    assert(factor * (memtable_size as u128) * 10 <= 0x1_0000_0000 * 0xffff_ffff * 10)
        by (nonlinear_arith)
        requires
            1 <= factor <= 0x1_0000_0000u128,
            memtable_size <= 0xffff_ffff,
    ;
    assert(factor * (memtable_size as u128) * 10 >= 1) by (nonlinear_arith)
        requires
            1 <= factor,
            memtable_size >= 1,
    ;
    let wanted: u128 = factor * (memtable_size as u128) * 10;
    let by_bytes: u128 = 8 * (usize::MAX as u128);
    let limit: u128 = if by_bytes < (u64::MAX - 7) as u128 {
        by_bytes
    } else {
        (u64::MAX - 7) as u128
    };
    if wanted > limit {
        limit as u64
    } else {
        wanted as u64
    }
}

impl LSMTree {
    /// The number of flushes so far.
    pub closed spec fn spec_tree_size(&self) -> u32 {
        self.tree_size
    }

    /// The directory of the tree's files.
    pub closed spec fn spec_name(&self) -> Seq<char> {
        self.name@
    }

    /// The number of records of one flush of a full write buffer.
    pub closed spec fn spec_memtable_size(&self) -> u32 {
        self.memtable_size
    }

    /// The pages that the tree has cached.
    pub closed spec fn cached(&self) -> Seq<crate::buffer::CacheEntry> {
        self.pool@
    }

    /// The filter of level `level`, if the level has one.
    pub closed spec fn filter_at(&self, level: nat) -> Option<Bitmap> {
        if level < self.filters@.len() {
            self.filters@[level as int]
        } else {
            None
        }
    }

    /// The page cache is well formed, every level has a filter slot, and
    /// every filter can take and check keys.
    pub closed spec fn wf(&self) -> bool {
        &&& self.pool.wf()
        &&& self.filters@.len() == 51
        &&& self.memtable_size > 0
        &&& forall|i: int|
            0 <= i < self.filters@.len() && (#[trigger] self.filters@[i]) is Some
                ==> self.filters@[i]->0.usable()
    }

    /// A tree without runs, whose files will lie in the directory `name`.
    pub fn new(name: String, buffer_pool_size: usize, memtable_size: u32) -> (tree: Self)
        requires
            memtable_size > 0,
        ensures
            tree.wf(),
            tree.spec_tree_size() == 0,
            tree.spec_name() == name@,
            tree.spec_memtable_size() == memtable_size,
            tree.cached() == Seq::<crate::buffer::CacheEntry>::empty(),
    {
        let mut filters: Vec<Option<Bitmap>> = Vec::new();
        let mut i: usize = 0;
        while i < FILTER_SLOTS
            invariant
                i <= 51,
                filters@.len() == i,
                forall|k: int| 0 <= k < i ==> filters@[k] is None,
            decreases 51 - i,
        {
            filters.push(None);
            i += 1;
        }
        LSMTree {
            name,
            pool: BufferPool::new(buffer_pool_size),
            tree_size: 0,
            filters,
            memtable_size,
        }
    }

    /// The number of flushes so far.
    pub fn tree_size(&self) -> (count: u32)
        ensures
            count == self.spec_tree_size(),
    {
        self.tree_size
    }

    /// Whether the filter of level `level` rules the key `key` out.
    pub open spec fn ruled_out(&self, level: nat, key: i64) -> bool {
        match self.filter_at(level) {
            Some(filter) => !key_bits(key, filter.spec_size()).subset_of(filter@),
            None => false,
        }
    }

    /// The leaf pages of the run at level `level`, as `disk` holds them.
    pub open spec fn leaves_at(&self, disk: &Disk, level: nat) -> Seq<Seq<(i64, i64)>> {
        file_run(
            disk@,
            leaf_path_text(
                self.spec_name(),
                level,
                level_run(self.spec_tree_size(), level) as nat,
            ),
        )
    }

    /// The index pages of the run at level `level`, as `disk` holds them.
    pub open spec fn index_at(&self, disk: &Disk, level: nat) -> Seq<Seq<(i64, i64)>> {
        file_run(
            disk@,
            internal_path_text(
                self.spec_name(),
                level,
                level_run(self.spec_tree_size(), level) as nat,
            ),
        )
    }

    /// The value under `key` in the first one, from level `level` up, of
    /// the runs that hold the key and whose filter does not rule it out.
    pub open spec fn value_from(&self, disk: &Disk, level: nat, key: i64) -> Option<i64>
        decreases 33 - level,
    {
        if !level_in_reach(self.spec_tree_size(), level) {
            None
        } else if !level_present(self.spec_tree_size(), level) || self.ruled_out(level, key) {
            self.value_from(disk, level + 1, key)
        } else {
            match run_search(self.index_at(disk, level), self.leaves_at(disk, level), key) {
                Some(v) => Some(v),
                None => self.value_from(disk, level + 1, key),
            }
        }
    }

    /// What a scan of the runs from level `level` up for the keys from
    /// `start` to `end` leaves in `map`.
    pub open spec fn scan_from(
        &self,
        disk: &Disk,
        level: nat,
        start: i64,
        end: i64,
        map: Map<i64, i64>,
    ) -> Map<i64, i64>
        decreases 33 - level,
    {
        if !level_in_reach(self.spec_tree_size(), level) {
            map
        } else if !level_present(self.spec_tree_size(), level) {
            self.scan_from(disk, level + 1, start, end, map)
        } else {
            self.scan_from(
                disk,
                level + 1,
                start,
                end,
                run_scan(self.index_at(disk, level), self.leaves_at(disk, level), start, end, map),
            )
        }
    }

    /// The records of the run at level `level`, as a map: under each key
    /// what a search of the run for it finds.
    pub open spec fn run_map_at(&self, disk: &Disk, level: nat) -> Map<i64, i64> {
        Map::new(
            |k: i64| run_search(self.index_at(disk, level), self.leaves_at(disk, level), k) is Some,
            |k: i64| run_search(self.index_at(disk, level), self.leaves_at(disk, level), k)->0,
        )
    }

    /// The records of the runs from level `level` up, as a map: under each
    /// key the value of the lowest level that holds it, which is the newest.
    pub open spec fn held_from(&self, disk: &Disk, level: nat) -> Map<i64, i64>
        decreases 33 - level,
    {
        if level < 1 || level > 32 {
            Map::empty()
        } else if level_present(self.spec_tree_size(), level) {
            self.held_from(disk, level + 1).union_prefer_right(self.run_map_at(disk, level))
        } else {
            self.held_from(disk, level + 1)
        }
    }

    /// What the tree says of `disk` depends on its name, the number of its
    /// flushes and its filters only.
    pub proof fn lemma_same_tree(&self, other: &LSMTree, disk: &Disk)
        requires
            self.spec_name() == other.spec_name(),
            self.spec_tree_size() == other.spec_tree_size(),
            forall|level: nat| self.filter_at(level) == other.filter_at(level),
        ensures
            self.runs_shaped(disk) == other.runs_shaped(disk),
            self.filters_agree(disk) == other.filters_agree(disk),
            self.contents(disk) == other.contents(disk),
    {
        assert forall|level: nat| self.index_at(disk, level) == other.index_at(disk, level)
            && self.leaves_at(disk, level) == other.leaves_at(disk, level) && self.run_map_at(
            disk,
            level,
        ) == other.run_map_at(disk, level) by {}
        self.lemma_same_held(other, disk, 1);
        if self.runs_shaped(disk) {
            assert forall|level: nat|
                level_present(other.spec_tree_size(), level) implies run_shaped(
                #[trigger] other.index_at(disk, level),
                other.leaves_at(disk, level),
            ) by {
                assert(run_shaped(self.index_at(disk, level), self.leaves_at(disk, level)));
            }
        }
        if other.runs_shaped(disk) {
            assert forall|level: nat|
                level_present(self.spec_tree_size(), level) implies run_shaped(
                #[trigger] self.index_at(disk, level),
                self.leaves_at(disk, level),
            ) by {
                assert(run_shaped(other.index_at(disk, level), other.leaves_at(disk, level)));
            }
        }
        if self.filters_agree(disk) {
            assert forall|level: nat, k: i64|
                level_present(other.spec_tree_size(), level) && #[trigger] other.run_map_at(
                    disk,
                    level,
                ).contains_key(k) implies !other.ruled_out(level, k) by {
                assert(self.run_map_at(disk, level).contains_key(k));
                assert(self.filter_at(level) == other.filter_at(level));
            }
        }
        if other.filters_agree(disk) {
            assert forall|level: nat, k: i64|
                level_present(self.spec_tree_size(), level) && #[trigger] self.run_map_at(
                    disk,
                    level,
                ).contains_key(k) implies !self.ruled_out(level, k) by {
                assert(other.run_map_at(disk, level).contains_key(k));
                assert(self.filter_at(level) == other.filter_at(level));
            }
        }
    }

    /// The map of the runs depends on the tree's name and the number of its
    /// flushes only.
    pub proof fn lemma_same_held(&self, other: &LSMTree, disk: &Disk, level: nat)
        requires
            self.spec_name() == other.spec_name(),
            self.spec_tree_size() == other.spec_tree_size(),
        ensures
            self.held_from(disk, level) == other.held_from(disk, level),
        decreases 33 - level,
    {
        if 1 <= level <= 32 {
            self.lemma_same_held(other, disk, level + 1);
            assert(self.run_map_at(disk, level) == other.run_map_at(disk, level));
        }
    }

    /// The state of a flush that has put its run at level `level`: the tree
    /// counts one flush more than `before`; the run of this flush, with the
    /// records `cur`, stands at level `level`; the levels from there up hold
    /// the runs that they held before the flush, and the levels below hold
    /// none.
    pub open spec fn flushing(
        &self,
        disk: &Disk,
        before: u32,
        level: nat,
        cur: Seq<(i64, i64)>,
    ) -> bool {
        let db = self.spec_name();
        let t = self.spec_tree_size();
        &&& before < u32::MAX
        &&& t == before + 1
        &&& 1 <= level <= 32
        &&& low_zero(t, (level - 1) as nat)
        &&& coherent(self.cached(), *disk)
        &&& names_within(self.cached(), cache_names(db, before as nat, level))
        &&& run_files_ok(disk@, db, level, t as nat, cur)
        &&& Self::filter_covers(self.filter_at(level), cur)
        &&& forall|l: nat|
            l >= level && #[trigger] level_present(before, l) ==> run_ok(
                disk@,
                db,
                l,
                level_run(before, l) as nat,
            )
        &&& forall|l: nat|
            l > level && #[trigger] level_present(before, l) ==> Self::filter_covers(
                self.filter_at(l),
                run_records(disk@, db, l, level_run(before, l) as nat),
            )
        &&& forall|l: nat, r: nat| #[trigger]
            disk@.contains_key(leaf_path_text(db, l, r)) ==> (l == level && r == t) || (l >= level
                && level_present(before, l) && r == level_run(before, l))
        &&& forall|l: nat, r: nat| #[trigger]
            disk@.contains_key(internal_path_text(db, l, r)) ==> (l == level && r == t) || (l
                >= level && level_present(before, l) && r == level_run(before, l))
    }

    /// A cache that holds pages of the runs up to `done` only, and of run
    /// `done + 1` up to level `level`, holds no page of that run at a level
    /// above.
    pub proof fn lemma_avoids_next(
        view: Seq<crate::buffer::CacheEntry>,
        db: Seq<char>,
        done: nat,
        level: nat,
        above: nat,
    )
        requires
            names_within(view, cache_names(db, done, level)),
            above > level,
        ensures
            avoids(view, leaf_path_text(db, above, done + 1)),
            avoids(view, internal_path_text(db, above, done + 1)),
    {
        assert forall|i: int| 0 <= i < view.len() implies (#[trigger] view[i]).name
            != leaf_path_text(db, above, done + 1) && view[i].name != internal_path_text(
            db,
            above,
            done + 1,
        ) by {
            let n = view[i].name;
            assert(cache_names(db, done, level).contains(n));
            if exists|l: nat, r: nat|
                (r <= done || (r == done + 1 && l <= level)) && n == #[trigger] leaf_path_text(
                    db,
                    l,
                    r,
                ) {
                let (l, r) = choose|l: nat, r: nat|
                    (r <= done || (r == done + 1 && l <= level)) && n == #[trigger] leaf_path_text(
                        db,
                        l,
                        r,
                    );
                lemma_lsm_paths(db, l, r, above, done + 1);
            } else {
                let (l, r) = choose|l: nat, r: nat|
                    (r <= done || (r == done + 1 && l <= level)) && n
                        == #[trigger] internal_path_text(db, l, r);
                lemma_lsm_paths(db, l, r, above, done + 1);
                lemma_lsm_paths(db, above, done + 1, l, r);
            }
        }
    }

    /// The files that a cache may hold pages of while a flush is at work
    /// grow with the level of the flush.
    pub proof fn lemma_names_grow(
        view: Seq<crate::buffer::CacheEntry>,
        db: Seq<char>,
        done: nat,
        level: nat,
        more: nat,
    )
        requires
            names_within(view, cache_names(db, done, level)),
            level <= more,
        ensures
            names_within(view, cache_names(db, done, more)),
            names_within(view, cache_names(db, done + 1, 0)),
    {
        assert forall|i: int| 0 <= i < view.len() implies cache_names(db, done, more).contains(
            (#[trigger] view[i]).name,
        ) && cache_names(db, done + 1, 0).contains(view[i].name) by {
            let n = view[i].name;
            assert(cache_names(db, done, level).contains(n));
            if exists|l: nat, r: nat|
                (r <= done || (r == done + 1 && l <= level)) && n == #[trigger] leaf_path_text(
                    db,
                    l,
                    r,
                ) {
                let (l, r) = choose|l: nat, r: nat|
                    (r <= done || (r == done + 1 && l <= level)) && n == #[trigger] leaf_path_text(
                        db,
                        l,
                        r,
                    );
                assert((r <= done || (r == done + 1 && l <= more)) && n == leaf_path_text(
                    db,
                    l,
                    r,
                ));
                assert((r <= done + 1 || (r == done + 2 && l <= 0)) && n == leaf_path_text(
                    db,
                    l,
                    r,
                ));
            } else {
                let (l, r) = choose|l: nat, r: nat|
                    (r <= done || (r == done + 1 && l <= level)) && n
                        == #[trigger] internal_path_text(db, l, r);
                assert((r <= done || (r == done + 1 && l <= more)) && n == internal_path_text(
                    db,
                    l,
                    r,
                ));
                assert((r <= done + 1 || (r == done + 2 && l <= 0)) && n == internal_path_text(
                    db,
                    l,
                    r,
                ));
            }
        }
    }

    /// What the first step of a flush makes of a sound tree: the new run
    /// stands at level 1, all else is as it was.
    pub proof fn lemma_start_flush(
        &self,
        before: &LSMTree,
        start: &Disk,
        with_leaf: &Disk,
        disk: &Disk,
        contents: Seq<(i64, i64)>,
    )
        requires
            before.sound(start),
            before.spec_tree_size() < u32::MAX,
            self.spec_name() == before.spec_name(),
            self.spec_tree_size() == before.spec_tree_size() + 1,
            self.cached() == before.cached(),
            Self::filter_covers(self.filter_at(1), contents),
            forall|l: nat| l != 1 ==> self.filter_at(l) == before.filter_at(l),
            keys_ascend(contents),
            clean(contents),
            2 * contents.len() + 2 <= i64::MAX,
            with_leaf@ == appended(
                start@,
                leaf_path_text(self.spec_name(), 1, self.spec_tree_size() as nat),
                pages_image(contents),
            ),
            disk@ == with_index(
                with_leaf@,
                internal_path_text(self.spec_name(), 1, self.spec_tree_size() as nat),
                index_pages(
                    file_run(
                        with_leaf@,
                        leaf_path_text(self.spec_name(), 1, self.spec_tree_size() as nat),
                    ),
                ),
            ),
        ensures
            self.flushing(disk, before.spec_tree_size(), 1, contents),
            records_from(disk@, self.spec_name(), before.spec_tree_size(), 1) == records_from(
                start@,
                self.spec_name(),
                before.spec_tree_size(),
                1,
            ),
            same_runs(disk@, start@, self.spec_name(), before.spec_tree_size(), 1),
    {
        let db = self.spec_name();
        let t0 = before.spec_tree_size();
        let t = self.spec_tree_size();
        let leaf = leaf_path_text(db, 1, t as nat);
        let index = internal_path_text(db, 1, t as nat);
        lemma_low_zero_start(t);
        assert(!start@.contains_key(leaf)) by {
            if start@.contains_key(leaf) {
                assert(level_present(t0, 1) && t == level_run(t0, 1));
                lemma_present(t0, 1, 1);
            }
        }
        assert(!start@.contains_key(index)) by {
            if start@.contains_key(index) {
                assert(level_present(t0, 1) && t == level_run(t0, 1));
                lemma_present(t0, 1, 1);
            }
        }
        lemma_clean(contents);
        lemma_run_of_image(contents);
        assert(with_leaf@ == start@.insert(leaf, pages_image(contents)));
        lemma_new_run(start@, with_leaf@, disk@, db, 1, t as nat, contents, pages_image(contents));
        Self::lemma_avoids_next(before.cached(), db, t0 as nat, 0, 1);
        lemma_append_keeps_coherent(self.cached(), *start, *with_leaf, leaf, pages_image(contents));
        if disk@ != with_leaf@ {
            lemma_append_keeps_coherent(
                self.cached(),
                *with_leaf,
                *disk,
                index,
                crate::storage::btree::images(index_pages(file_run(with_leaf@, leaf))),
            );
        }
        Self::lemma_names_grow(before.cached(), db, t0 as nat, 0, 1);
        assert forall|l: nat| l >= 1 && #[trigger] level_present(t0, l) implies run_ok(
            disk@,
            db,
            l,
            level_run(t0, l) as nat,
        ) && run_records(disk@, db, l, level_run(t0, l) as nat) == run_records(
            start@,
            db,
            l,
            level_run(t0, l) as nat,
        ) && Self::filter_covers(
            before.filter_at(l),
            run_records(disk@, db, l, level_run(t0, l) as nat),
        ) by {
            lemma_present(t0, l, l);
            let r = level_run(t0, l) as nat;
            lemma_lsm_paths(db, l, r, 1, t as nat);
            lemma_lsm_paths(db, 1, t as nat, l, r);
            assert(same_file(start@, disk@, leaf_path_text(db, l, r)));
            assert(same_file(start@, disk@, internal_path_text(db, l, r)));
            lemma_run_frame(start@, disk@, db, l, r);
            assert(run_ok(start@, db, l, r));
        }
        lemma_records_frame(disk@, start@, db, t0, 1);
        assert forall|l: nat, r: nat| #[trigger]
            disk@.contains_key(leaf_path_text(db, l, r)) implies (l == 1 && r == t) || (l >= 1
            && level_present(t0, l) && r == level_run(t0, l)) by {
            lemma_lsm_paths(db, l, r, 1, t as nat);
            if !(l == 1 && r == t) {
                assert(same_file(start@, disk@, leaf_path_text(db, l, r)));
                assert(start@.contains_key(leaf_path_text(db, l, r)));
            }
        }
        assert forall|l: nat, r: nat| #[trigger]
            disk@.contains_key(internal_path_text(db, l, r)) implies (l == 1 && r == t) || (l >= 1
            && level_present(t0, l) && r == level_run(t0, l)) by {
            lemma_lsm_paths(db, l, r, 1, t as nat);
            lemma_lsm_paths(db, 1, t as nat, l, r);
            if !(l == 1 && r == t) {
                assert(same_file(start@, disk@, internal_path_text(db, l, r)));
                assert(start@.contains_key(internal_path_text(db, l, r)));
            }
        }
    }

    /// What a merge at level `level` makes of a flush: the run of the flush
    /// stands at the next level, merged with the run that the level held.
    pub proof fn lemma_merge_step(
        &self,
        start: &LSMTree,
        d0: &Disk,
        d1: &Disk,
        d2: &Disk,
        d3: &Disk,
        d4: &Disk,
        d5: &Disk,
        d6: &Disk,
        before: u32,
        level: nat,
        cur: Seq<(i64, i64)>,
    )
        requires
            start.flushing(d0, before, level, cur),
            !level_present(start.spec_tree_size(), level),
            self.spec_name() == start.spec_name(),
            self.spec_tree_size() == start.spec_tree_size(),
            coherent(self.cached(), *d1),
            names_within(self.cached(), cache_names(self.spec_name(), before as nat, level)),
            self.filter_at(level) is None,
            self.filter_at(level + 1) is Some,
            self.filter_at(level + 1)->0@ == Set::<u64>::empty().union(
                filter_bits(
                    merge_newer(
                        run_records(
                            d0@,
                            self.spec_name(),
                            level,
                            level_run(before, level) as nat,
                        ),
                        cur,
                    ),
                    self.filter_at(level + 1)->0.spec_size(),
                ),
            ),
            forall|l: nat| l != level && l != level + 1 ==> self.filter_at(l) == start.filter_at(l),
            d1@ == appended(
                d0@,
                leaf_path_text(self.spec_name(), level + 1, self.spec_tree_size() as nat),
                crate::storage::btree::images(
                    chunks(
                        merge_newer(
                            run_records(
                                d0@,
                                self.spec_name(),
                                level,
                                level_run(before, level) as nat,
                            ),
                            cur,
                        ),
                    ),
                ),
            ),
            d1@[leaf_path_text(self.spec_name(), level + 1, self.spec_tree_size() as nat)].len()
                <= u64::MAX,
            d2@ == with_index(
                d1@,
                internal_path_text(self.spec_name(), level + 1, self.spec_tree_size() as nat),
                index_pages(
                    file_run(
                        d1@,
                        leaf_path_text(self.spec_name(), level + 1, self.spec_tree_size() as nat),
                    ),
                ),
            ),
            d3@ == d2@.remove(
                leaf_path_text(self.spec_name(), level, level_run(before, level) as nat),
            ),
            d4@ == d3@.remove(leaf_path_text(self.spec_name(), level, self.spec_tree_size() as nat)),
            d5@ == d4@.remove(
                internal_path_text(self.spec_name(), level, level_run(before, level) as nat),
            ),
            d6@ == d5@.remove(
                internal_path_text(self.spec_name(), level, self.spec_tree_size() as nat),
            ),
        ensures
            self.flushing(
                d6,
                before,
                level + 1,
                merge_newer(
                    run_records(d0@, self.spec_name(), level, level_run(before, level) as nat),
                    cur,
                ),
            ),
            forall|l: nat|
                l >= level + 1 && #[trigger] level_present(before, l) ==> run_records(
                    d6@,
                    self.spec_name(),
                    l,
                    level_run(before, l) as nat,
                ) == run_records(d0@, self.spec_name(), l, level_run(before, l) as nat),
    {
        let db = self.spec_name();
        let t = self.spec_tree_size();
        let older = level_run(before, level) as nat;
        let recs = run_records(d0@, db, level, older);
        let merged = merge_newer(recs, cur);
        let out_leaf = leaf_path_text(db, level + 1, t as nat);
        let out_index = internal_path_text(db, level + 1, t as nat);
        let first = leaf_path_text(db, level, older);
        let second = leaf_path_text(db, level, t as nat);
        let first_index = internal_path_text(db, level, older);
        let second_index = internal_path_text(db, level, t as nat);
        let bytes = crate::storage::btree::images(chunks(merged));
        lemma_carry(before, t, level);
        lemma_present(before, level, level);
        assert(run_ok(d0@, db, level, older));
        lemma_merge_newer(recs, cur);
        assert(clean(merged)) by {
            assert forall|i: int| 0 <= i < merged.len() implies #[trigger] merged[i]
                != crate::page::padding_record() by {
                if recs.contains(merged[i]) {
                    let j = recs.index_of(merged[i]);
                    assert(recs[j] == merged[i]);
                } else {
                    let j = cur.index_of(merged[i]);
                    assert(cur[j] == merged[i]);
                }
            }
        }
        lemma_clean(merged);
        crate::storage::btree::lemma_images_pages(chunks(merged));
        assert(!d0@.contains_key(out_leaf)) by {
            if d0@.contains_key(out_leaf) {
                assert(level_present(before, level + 1) && t == level_run(before, level + 1));
                lemma_present(before, level + 1, level + 1);
            }
        }
        assert(!d0@.contains_key(out_index)) by {
            if d0@.contains_key(out_index) {
                assert(level_present(before, level + 1) && t == level_run(before, level + 1));
                lemma_present(before, level + 1, level + 1);
            }
        }
        assert(d1@ == d0@.insert(out_leaf, bytes));
        assert(bytes.len() == 4096 * chunks(merged).len());
        assert(crate::sst::run_pages(bytes, (bytes.len() / 4096) as nat) =~= chunks(merged));
        assert(2 * merged.len() + 2 <= i64::MAX) by {
            assert(chunks(merged).len() == crate::page::page_count(merged.len()));
        }
        lemma_new_run(d0@, d1@, d2@, db, level + 1, t as nat, merged, bytes);
        lemma_lsm_paths(db, level + 1, t as nat, level, older);
        lemma_lsm_paths(db, level + 1, t as nat, level, t as nat);
        lemma_lsm_paths(db, level, older, level + 1, t as nat);
        lemma_lsm_paths(db, level, t as nat, level + 1, t as nat);
        assert(same_file(d2@, d6@, out_leaf));
        assert(same_file(d2@, d6@, out_index));
        lemma_run_frame(d2@, d6@, db, level + 1, t as nat);
        Self::lemma_avoids_next(self.cached(), db, before as nat, level, level + 1);
        if d2@ != d1@ {
            lemma_append_keeps_coherent(
                self.cached(),
                *d1,
                *d2,
                out_index,
                crate::storage::btree::images(index_pages(file_run(d1@, out_leaf))),
            );
        }
        lemma_remove_keeps_coherent(self.cached(), *d2, *d3, first);
        lemma_remove_keeps_coherent(self.cached(), *d3, *d4, second);
        lemma_remove_keeps_coherent(self.cached(), *d4, *d5, first_index);
        lemma_remove_keeps_coherent(self.cached(), *d5, *d6, second_index);
        Self::lemma_names_grow(self.cached(), db, before as nat, level, level + 1);
        assert forall|l: nat| l >= level + 1 && #[trigger] level_present(before, l) implies run_ok(
            d6@,
            db,
            l,
            level_run(before, l) as nat,
        ) && run_records(d6@, db, l, level_run(before, l) as nat) == run_records(
            d0@,
            db,
            l,
            level_run(before, l) as nat,
        ) by {
            lemma_present(before, l, l);
            let r = level_run(before, l) as nat;
            lemma_lsm_paths(db, l, r, level + 1, t as nat);
            lemma_lsm_paths(db, level + 1, t as nat, l, r);
            lemma_lsm_paths(db, l, r, level, older);
            lemma_lsm_paths(db, l, r, level, t as nat);
            lemma_lsm_paths(db, level, older, l, r);
            lemma_lsm_paths(db, level, t as nat, l, r);
            assert(same_file(d0@, d2@, leaf_path_text(db, l, r)));
            assert(same_file(d0@, d2@, internal_path_text(db, l, r)));
            assert(same_file(d0@, d6@, leaf_path_text(db, l, r)));
            assert(same_file(d0@, d6@, internal_path_text(db, l, r)));
            lemma_run_frame(d0@, d6@, db, l, r);
            assert(run_ok(d0@, db, l, r));
        }
        assert forall|l: nat| l > level + 1 && #[trigger] level_present(before, l) implies Self::filter_covers(
            self.filter_at(l),
            run_records(d6@, db, l, level_run(before, l) as nat),
        ) by {
            assert(self.filter_at(l) == start.filter_at(l));
        }
        assert forall|l: nat, r: nat| #[trigger]
            d6@.contains_key(leaf_path_text(db, l, r)) implies (l == level + 1 && r == t) || (l
            >= level + 1 && level_present(before, l) && r == level_run(before, l)) by {
            lemma_lsm_paths(db, l, r, level + 1, t as nat);
            lemma_lsm_paths(db, l, r, level, older);
            lemma_lsm_paths(db, l, r, level, t as nat);
            if !(l == level + 1 && r == t) {
                assert(d2@.contains_key(leaf_path_text(db, l, r)));
                assert(same_file(d0@, d2@, leaf_path_text(db, l, r)));
                assert(d0@.contains_key(leaf_path_text(db, l, r)));
            }
        }
        assert forall|l: nat, r: nat| #[trigger]
            d6@.contains_key(internal_path_text(db, l, r)) implies (l == level + 1 && r == t) || (l
            >= level + 1 && level_present(before, l) && r == level_run(before, l)) by {
            lemma_lsm_paths(db, l, r, level + 1, t as nat);
            lemma_lsm_paths(db, level + 1, t as nat, l, r);
            lemma_lsm_paths(db, l, r, level, older);
            lemma_lsm_paths(db, l, r, level, t as nat);
            if !(l == level + 1 && r == t) {
                assert(d2@.contains_key(internal_path_text(db, l, r)));
                assert(same_file(d0@, d2@, internal_path_text(db, l, r)));
                assert(d0@.contains_key(internal_path_text(db, l, r)));
            }
        }
    }

    /// What a flush has made of the tree once its run stands at a level
    /// that held none: a sound tree, whose records are those of the levels
    /// above and, before them, those of the run.
    pub proof fn lemma_settle_flush(&self, disk: &Disk, before: u32, level: nat, cur: Seq<(i64, i64)>)
        requires
            self.flushing(disk, before, level, cur),
            level_present(self.spec_tree_size(), level),
        ensures
            self.sound(disk),
            records_from(disk@, self.spec_name(), self.spec_tree_size(), 1) == records_from(
                disk@,
                self.spec_name(),
                before,
                level,
            ).union_prefer_right(entries_map(cur)),
    {
        let db = self.spec_name();
        let t = self.spec_tree_size();
        lemma_settle(before, t, level);
        lemma_run_records(disk@, db, level, t as nat, cur);
        Self::lemma_names_grow(self.cached(), db, before as nat, level, level);
        assert forall|l: nat| 1 <= l <= 32 && l > level implies (#[trigger] level_present(t, l))
            == level_present(before, l) && level_run(t, l) == level_run(before, l) by {
            lemma_above(before, t, level, l);
        }
        assert forall|l: nat| 1 <= l < level implies !#[trigger] level_present(t, l) by {
            lemma_below(t, (level - 1) as nat, l);
        }
        assert forall|l: nat| #[trigger] level_present(t, l) implies run_ok(
            disk@,
            db,
            l,
            level_run(t, l) as nat,
        ) && Self::filter_covers(
            self.filter_at(l),
            run_records(disk@, db, l, level_run(t, l) as nat),
        ) by {
            if l > level {
                assert(level_present(before, l));
            } else if l < level {
                assert(!level_present(t, l));
            }
        }
        assert forall|l: nat, r: nat| #[trigger]
            disk@.contains_key(leaf_path_text(db, l, r)) implies level_present(t, l) && r
            == level_run(t, l) by {
            if !(l == level && r == t) {
                assert(l > level);
                assert(level_present(before, l));
            }
        }
        assert forall|l: nat, r: nat| #[trigger]
            disk@.contains_key(internal_path_text(db, l, r)) implies level_present(t, l) && r
            == level_run(t, l) by {
            if !(l == level && r == t) {
                assert(l > level);
                assert(level_present(before, l));
            }
        }
        lemma_records_skip(disk@, db, t, 1, level);
        crate::storage::runs::lemma_same_levels_above(before, t, level);
        lemma_records_same_levels(disk@, db, t, before, level + 1);
        assert(!level_present(before, level));
    }

    /// A tree that differs from a sound one in the pages that it has cached
    /// only is sound, where these pages are in step with the files and of
    /// the files of the tree.
    pub proof fn lemma_still_sound(&self, other: &LSMTree, disk: &Disk)
        requires
            other.sound(disk),
            self.spec_name() == other.spec_name(),
            self.spec_tree_size() == other.spec_tree_size(),
            forall|level: nat| self.filter_at(level) == other.filter_at(level),
            coherent(self.cached(), *disk),
            names_within(
                self.cached(),
                cache_names(self.spec_name(), self.spec_tree_size() as nat, 0),
            ),
        ensures
            self.sound(disk),
    {
        assert forall|l: nat| #[trigger] level_present(self.spec_tree_size(), l) implies run_ok(
            disk@,
            self.spec_name(),
            l,
            level_run(self.spec_tree_size(), l) as nat,
        ) && Self::filter_covers(
            self.filter_at(l),
            run_records(disk@, self.spec_name(), l, level_run(self.spec_tree_size(), l) as nat),
        ) by {
            assert(level_present(other.spec_tree_size(), l));
            assert(self.filter_at(l) == other.filter_at(l));
        }
    }

    /// No filter rules out a key of its run.
    pub open spec fn filters_agree(&self, disk: &Disk) -> bool {
        forall|level: nat, k: i64|
            level_present(self.spec_tree_size(), level) && #[trigger] self.run_map_at(
                disk,
                level,
            ).contains_key(k) ==> !self.ruled_out(level, k)
    }

    /// The records that the tree holds.
    pub open spec fn contents(&self, disk: &Disk) -> Map<i64, i64> {
        self.held_from(disk, 1)
    }

    /// The cache is in step with the files, the pages of every run are
    /// sorted, and no filter rules out a key of its run.
    pub open spec fn steady(&self, disk: &Disk) -> bool {
        &&& coherent(self.cached(), *disk)
        &&& self.runs_shaped(disk)
        &&& self.filters_agree(disk)
    }

    /// Every leaf file on `disk` is that of the run of a level that holds a
    /// run.
    pub open spec fn leaves_match(&self, disk: &Disk) -> bool {
        forall|l: nat, r: nat| #[trigger]
            disk@.contains_key(leaf_path_text(self.spec_name(), l, r)) ==> level_present(
                self.spec_tree_size(),
                l,
            ) && r == level_run(self.spec_tree_size(), l)
    }

    /// Every index file on `disk` is that of the run of a level that holds
    /// a run.
    pub open spec fn indexes_match(&self, disk: &Disk) -> bool {
        forall|l: nat, r: nat| #[trigger]
            disk@.contains_key(internal_path_text(self.spec_name(), l, r)) ==> level_present(
                self.spec_tree_size(),
                l,
            ) && r == level_run(self.spec_tree_size(), l)
    }

    /// The filter, where there is one, holds the keys of the records.
    pub open spec fn filter_covers(filter: Option<Bitmap>, records: Seq<(i64, i64)>) -> bool {
        match filter {
            Some(f) => filter_bits(records, f.spec_size()).subset_of(f@),
            None => true,
        }
    }

    /// Every level that holds a run has the two files of that run, which
    /// hold sorted records without the padding record, and a filter that
    /// holds the keys of these records.
    pub open spec fn levels_hold(&self, disk: &Disk) -> bool {
        forall|l: nat| #[trigger]
            level_present(self.spec_tree_size(), l) ==> run_ok(
                disk@,
                self.spec_name(),
                l,
                level_run(self.spec_tree_size(), l) as nat,
            ) && Self::filter_covers(
                self.filter_at(l),
                run_records(
                    disk@,
                    self.spec_name(),
                    l,
                    level_run(self.spec_tree_size(), l) as nat,
                ),
            )
    }

    /// The files are what the flushes made of them: the levels that hold a
    /// run are the bits of the flush count, each has the files of its run
    /// and no other files are there; the cache holds pages of these runs
    /// and of earlier ones only, as the files hold them.
    pub open spec fn sound(&self, disk: &Disk) -> bool {
        &&& coherent(self.cached(), *disk)
        &&& names_within(
            self.cached(),
            cache_names(self.spec_name(), self.spec_tree_size() as nat, 0),
        )
        &&& self.leaves_match(disk)
        &&& self.indexes_match(disk)
        &&& self.levels_hold(disk)
    }

    /// A scan of the runs from level `level` up gathers the records of
    /// these runs whose keys lie from `start` to `end`, under each key the
    /// newest.
    pub proof fn lemma_scan_from(
        &self,
        disk: &Disk,
        level: nat,
        start: i64,
        end: i64,
        map: Map<i64, i64>,
    )
        requires
            self.sound(disk),
            1 <= level,
        ensures
            self.scan_from(disk, level, start, end, map) == crate::records::merged(
                map,
                crate::records::range_of(self.held_from(disk, level), start, end),
            ),
        decreases 33 - level,
    {
        let db = self.spec_name();
        let t = self.spec_tree_size();
        let held = self.held_from(disk, level);
        if !level_in_reach(t, level) {
            self.lemma_held_out_of_reach(disk, level, level);
            assert(crate::records::range_of(held, start, end) =~= Map::<i64, i64>::empty());
            assert(crate::records::merged(map, crate::records::range_of(held, start, end))
                =~= map);
        } else if !level_present(t, level) {
            self.lemma_scan_from(disk, level + 1, start, end, map);
        } else {
            let recs = run_records(disk@, db, level, level_run(t, level) as nat);
            assert(run_ok(disk@, db, level, level_run(t, level) as nat));
            crate::scans::lemma_run_scan(recs, start, end, map);
            lemma_run_map(recs);
            let newer = crate::records::range_of(entries_map(recs), start, end);
            let next = crate::records::merged(map, newer);
            self.lemma_scan_from(disk, level + 1, start, end, next);
            let older = self.held_from(disk, level + 1);
            crate::scans::lemma_merged_twice(
                map,
                newer,
                crate::records::range_of(older, start, end),
            );
            crate::scans::lemma_range_of_union(older, entries_map(recs), start, end);
        }
    }

    /// The levels of a sound tree are the bits of its flush count: a level
    /// has the leaf file of a run where its bit is set, and then of the one
    /// run that the latest flush or merge put there; no other leaf file of
    /// the tree is on the disk.
    pub proof fn lemma_levels_are_bits(&self, disk: &Disk, level: nat, run: nat)
        requires
            self.sound(disk),
        ensures
            disk@.contains_key(leaf_path_text(self.spec_name(), level, run)) <==> level_present(
                self.spec_tree_size(),
                level,
            ) && run == level_run(self.spec_tree_size(), level),
            disk@.contains_key(internal_path_text(self.spec_name(), level, run)) ==> level_present(
                self.spec_tree_size(),
                level,
            ) && run == level_run(self.spec_tree_size(), level),
    {
        if level_present(self.spec_tree_size(), level) {
            assert(run_ok(
                disk@,
                self.spec_name(),
                level,
                level_run(self.spec_tree_size(), level) as nat,
            ));
        }
    }

    /// The records of the run at level `level`, as its leaf file holds them.
    pub open spec fn records_at(&self, disk: &Disk, level: nat) -> Seq<(i64, i64)> {
        run_records(
            disk@,
            self.spec_name(),
            level,
            level_run(self.spec_tree_size(), level) as nat,
        )
    }

    /// The leaf files of the tree on `disk` are those of the levels that
    /// hold a run, each the file of the run that the flush count gives the
    /// level, and the tree has no index file but of these runs.
    pub open spec fn shaped(&self, disk: &Disk) -> bool {
        &&& forall|l: nat, r: nat| #[trigger]
            disk@.contains_key(leaf_path_text(self.spec_name(), l, r)) <==> level_present(
                self.spec_tree_size(),
                l,
            ) && r == level_run(self.spec_tree_size(), l)
        &&& self.indexes_match(disk)
    }

    /// The files of a flush that has put its run at level `level`: the
    /// tree counts one flush more than `before`; the leaf files are that of
    /// this flush at level `level` and those that the levels from there up
    /// had before the flush; there is no index file but of these runs.
    pub open spec fn shaping(&self, disk: &Disk, before: u32, level: nat) -> bool {
        let db = self.spec_name();
        let t = self.spec_tree_size();
        &&& before < u32::MAX
        &&& t == before + 1
        &&& 1 <= level <= 32
        &&& low_zero(t, (level - 1) as nat)
        &&& forall|l: nat, r: nat| #[trigger]
            disk@.contains_key(leaf_path_text(db, l, r)) <==> (l == level && r == t) || (l >= level
                && level_present(before, l) && r == level_run(before, l))
        &&& forall|l: nat, r: nat| #[trigger]
            disk@.contains_key(internal_path_text(db, l, r)) ==> (l == level && r == t) || (l
                >= level && level_present(before, l) && r == level_run(before, l))
    }

    /// Writing the run of a flush at level 1 starts the flush.
    pub proof fn lemma_shape_start(&self, before: &LSMTree, start: &Disk, disk: &Disk)
        requires
            before.shaped(start),
            before.spec_tree_size() < u32::MAX,
            self.spec_name() == before.spec_name(),
            self.spec_tree_size() == before.spec_tree_size() + 1,
            disk@.contains_key(leaf_path_text(self.spec_name(), 1, self.spec_tree_size() as nat)),
            forall|p: Seq<char>| start@.contains_key(p) ==> disk@.contains_key(p),
            forall|p: Seq<char>|
                disk@.contains_key(p) ==> start@.contains_key(p) || p == leaf_path_text(
                    self.spec_name(),
                    1,
                    self.spec_tree_size() as nat,
                ) || p == internal_path_text(self.spec_name(), 1, self.spec_tree_size() as nat),
        ensures
            self.shaping(disk, before.spec_tree_size(), 1),
    {
        let db = self.spec_name();
        let t = self.spec_tree_size();
        let t0 = before.spec_tree_size();
        lemma_low_zero_start(t);
        assert forall|l: nat, r: nat| #[trigger]
            disk@.contains_key(leaf_path_text(db, l, r)) <==> (l == 1 && r == t) || (l >= 1
                && level_present(t0, l) && r == level_run(t0, l)) by {
            lemma_lsm_paths(db, l, r, 1, t as nat);
        }
        assert forall|l: nat, r: nat| #[trigger]
            disk@.contains_key(internal_path_text(db, l, r)) implies (l == 1 && r == t) || (l >= 1
            && level_present(t0, l) && r == level_run(t0, l)) by {
            lemma_lsm_paths(db, l, r, 1, t as nat);
            lemma_lsm_paths(db, 1, t as nat, l, r);
        }
    }

    /// A merge at level `level` moves the flush to the next level: the
    /// merged run is written there and the files of the two runs of the
    /// level are removed.
    pub proof fn lemma_shape_step(&self, from: &Disk, disk: &Disk, before: u32, level: nat)
        requires
            self.shaping(from, before, level),
            !level_present(self.spec_tree_size(), level),
            disk@.contains_key(
                leaf_path_text(self.spec_name(), level + 1, self.spec_tree_size() as nat),
            ),
            forall|p: Seq<char>|
                disk@.contains_key(p) ==> (from@.contains_key(p) || p == leaf_path_text(
                    self.spec_name(),
                    level + 1,
                    self.spec_tree_size() as nat,
                ) || p == internal_path_text(
                    self.spec_name(),
                    level + 1,
                    self.spec_tree_size() as nat,
                )),
            forall|r: nat|
                !disk@.contains_key(#[trigger] leaf_path_text(self.spec_name(), level, r))
                    && !disk@.contains_key(internal_path_text(self.spec_name(), level, r)),
            forall|l: nat, r: nat|
                l != level && from@.contains_key(#[trigger] leaf_path_text(self.spec_name(), l, r))
                    ==> disk@.contains_key(leaf_path_text(self.spec_name(), l, r)),
        ensures
            self.shaping(disk, before, level + 1),
    {
        let db = self.spec_name();
        let t = self.spec_tree_size();
        lemma_carry(before, t, level);
        assert forall|l: nat, r: nat| #[trigger]
            disk@.contains_key(leaf_path_text(db, l, r)) <==> (l == level + 1 && r == t) || (l
                >= level + 1 && level_present(before, l) && r == level_run(before, l)) by {
            lemma_lsm_paths(db, l, r, level + 1, t as nat);
            lemma_lsm_paths(db, level + 1, t as nat, l, r);
            if l == level {
                assert(!disk@.contains_key(leaf_path_text(db, level, r)));
            }
        }
        assert forall|l: nat, r: nat| #[trigger]
            disk@.contains_key(internal_path_text(db, l, r)) implies (l == level + 1 && r == t)
            || (l >= level + 1 && level_present(before, l) && r == level_run(before, l)) by {
            lemma_lsm_paths(db, l, r, level + 1, t as nat);
            lemma_lsm_paths(db, level + 1, t as nat, l, r);
            if l == level {
                assert(!disk@.contains_key(leaf_path_text(db, level, r)));
            }
        }
    }

    /// What the steps of a merge at level `level` make of the files: the
    /// merged run is written at the next level, with its index file where
    /// it has one, and the four files of the two runs of the level are
    /// removed.
    pub proof fn lemma_shape_merge(
        &self,
        d0: &Disk,
        d1: &Disk,
        d2: &Disk,
        d3: &Disk,
        d4: &Disk,
        d5: &Disk,
        disk: &Disk,
        before: u32,
        level: nat,
    )
        requires
            self.shaping(d0, before, level),
            !level_present(self.spec_tree_size(), level),
            forall|p: Seq<char>|
                d1@.contains_key(p) <==> d0@.contains_key(p) || p == leaf_path_text(
                    self.spec_name(),
                    level + 1,
                    self.spec_tree_size() as nat,
                ),
            d2@ == with_index(
                d1@,
                internal_path_text(self.spec_name(), level + 1, self.spec_tree_size() as nat),
                index_pages(
                    file_run(
                        d1@,
                        leaf_path_text(self.spec_name(), level + 1, self.spec_tree_size() as nat),
                    ),
                ),
            ),
            d3@ == d2@.remove(
                leaf_path_text(self.spec_name(), level, level_run(before, level) as nat),
            ),
            d4@ == d3@.remove(leaf_path_text(self.spec_name(), level, self.spec_tree_size() as nat)),
            d5@ == d4@.remove(
                internal_path_text(self.spec_name(), level, level_run(before, level) as nat),
            ),
            disk@ == d5@.remove(
                internal_path_text(self.spec_name(), level, self.spec_tree_size() as nat),
            ),
        ensures
            self.shaping(disk, before, level + 1),
    {
        let db = self.spec_name();
        let t = self.spec_tree_size();
        let older = level_run(before, level) as nat;
        lemma_carry(before, t, level);
        lemma_lsm_paths(db, level + 1, t as nat, level, older);
        lemma_lsm_paths(db, level + 1, t as nat, level, t as nat);
        lemma_lsm_paths(db, level, older, level + 1, t as nat);
        lemma_lsm_paths(db, level, t as nat, level + 1, t as nat);
        assert(d1@.contains_key(leaf_path_text(db, level + 1, t as nat)));
        assert(d2@.contains_key(leaf_path_text(db, level + 1, t as nat)));
        assert(disk@.contains_key(leaf_path_text(db, level + 1, t as nat)));
        assert forall|r: nat|
            !disk@.contains_key(#[trigger] leaf_path_text(db, level, r)) && !disk@.contains_key(
                internal_path_text(db, level, r),
            ) by {
            lemma_lsm_paths(db, level, r, level + 1, t as nat);
            lemma_lsm_paths(db, level + 1, t as nat, level, r);
            lemma_lsm_paths(db, level, r, level, older);
            lemma_lsm_paths(db, level, r, level, t as nat);
            if disk@.contains_key(leaf_path_text(db, level, r)) {
                assert(d0@.contains_key(leaf_path_text(db, level, r)));
            }
            if disk@.contains_key(internal_path_text(db, level, r)) {
                assert(d0@.contains_key(internal_path_text(db, level, r)));
            }
        }
        assert forall|l: nat, r: nat|
            l != level && d0@.contains_key(#[trigger] leaf_path_text(db, l, r))
                implies disk@.contains_key(leaf_path_text(db, l, r)) by {
            lemma_lsm_paths(db, l, r, level, older);
            lemma_lsm_paths(db, l, r, level, t as nat);
            assert(d1@.contains_key(leaf_path_text(db, l, r)));
            assert(d2@.contains_key(leaf_path_text(db, l, r)));
        }
        self.lemma_shape_step(d0, disk, before, level);
    }

    /// A flush whose run has come to a level that held none has settled.
    pub proof fn lemma_shape_settle(&self, disk: &Disk, before: u32, level: nat)
        requires
            self.shaping(disk, before, level),
            level_present(self.spec_tree_size(), level),
        ensures
            self.shaped(disk),
    {
        let db = self.spec_name();
        let t = self.spec_tree_size();
        lemma_settle(before, t, level);
        assert forall|l: nat| 1 <= l <= 32 && l > level implies (#[trigger] level_present(t, l))
            == level_present(before, l) && level_run(t, l) == level_run(before, l) by {
            lemma_above(before, t, level, l);
        }
        assert forall|l: nat| 1 <= l < level implies !#[trigger] level_present(t, l) by {
            lemma_below(t, (level - 1) as nat, l);
        }
        assert forall|l: nat, r: nat| #[trigger]
            disk@.contains_key(leaf_path_text(db, l, r)) <==> level_present(t, l) && r
                == level_run(t, l) by {
            if l > level {
                assert(level_present(t, l) == level_present(before, l));
            }
            if level_present(t, l) && l < level {
                assert(!level_present(t, l));
            }
        }
        assert forall|l: nat, r: nat| #[trigger]
            disk@.contains_key(internal_path_text(db, l, r)) implies level_present(t, l) && r
            == level_run(t, l) by {
            if l > level {
                assert(level_present(t, l) == level_present(before, l));
            }
        }
    }

    /// A tree that has not been flushed has the files of its flush count on
    /// a disk that holds none of its files.
    pub proof fn lemma_new_shaped(&self, disk: &Disk)
        requires
            self.spec_tree_size() == 0,
            forall|l: nat, r: nat|
                !#[trigger] disk@.contains_key(leaf_path_text(self.spec_name(), l, r)),
            forall|l: nat, r: nat|
                !#[trigger] disk@.contains_key(internal_path_text(self.spec_name(), l, r)),
        ensures
            self.shaped(disk),
    {
        assert forall|l: nat| !#[trigger] level_present(0u32, l) by {
            if 1 <= l <= 32 {
                let j = (l - 1) as u32;
                assert((0u32 >> j) & 1 == 0) by (bit_vector);
            }
        }
    }

    /// The run that a flush of the records `contents` brings to level
    /// `level`: the records merged with the runs of the levels below, from
    /// level 1 up, as the newer of the two each time.
    pub open spec fn carried(&self, disk: &Disk, level: nat, contents: Seq<(i64, i64)>) -> Seq<
        (i64, i64),
    >
        decreases level,
    {
        if level <= 1 {
            contents
        } else {
            merge_newer(
                self.records_at(disk, (level - 1) as nat),
                self.carried(disk, (level - 1) as nat, contents),
            )
        }
    }

    /// The runs of a flush that has settled at level `level` with the run
    /// `cur`: that level holds `cur`, and the levels above hold what they
    /// held before the flush.
    pub proof fn lemma_runs_after(
        &self,
        disk: &Disk,
        before: &LSMTree,
        start: &Disk,
        level: nat,
        cur: Seq<(i64, i64)>,
        l: nat,
    )
        requires
            self.spec_name() == before.spec_name(),
            before.spec_tree_size() < u32::MAX,
            self.spec_tree_size() == before.spec_tree_size() + 1,
            1 <= level <= 32,
            low_zero(self.spec_tree_size(), (level - 1) as nat),
            level_present(self.spec_tree_size(), level),
            self.records_at(disk, level) == cur,
            same_runs(disk@, start@, self.spec_name(), before.spec_tree_size(), level + 1),
            level_present(self.spec_tree_size(), l),
        ensures
            l >= level,
            low_zero(self.spec_tree_size(), (l - 1) as nat) <==> l == level,
            l == level ==> self.records_at(disk, l) == cur,
            l > level ==> level_present(before.spec_tree_size(), l) && self.records_at(disk, l)
                == before.records_at(start, l),
    {
        let t = self.spec_tree_size();
        let t0 = before.spec_tree_size();
        if l < level {
            lemma_below(t, (level - 1) as nat, l);
        } else if l > level {
            lemma_above(t0, t, level, l);
            if low_zero(t, (l - 1) as nat) {
                lemma_below(t, (l - 1) as nat, level);
            }
        }
    }

    /// Every run is full, and no key is a key of two runs: the run at level
    /// `l` holds the records of `2^(l - 1)` flushes of a full write buffer.
    pub open spec fn full(&self, disk: &Disk) -> bool {
        &&& forall|l: nat| #[trigger]
            level_present(self.spec_tree_size(), l) ==> self.records_at(disk, l).len() == pow2(
                (l - 1) as nat,
            ) * self.spec_memtable_size()
        &&& forall|l: nat, m: nat|
            #![trigger level_present(self.spec_tree_size(), l), level_present(self.spec_tree_size(), m)]
            level_present(self.spec_tree_size(), l) && level_present(self.spec_tree_size(), m) && l
                != m ==> keys_apart(self.records_at(disk, l), self.records_at(disk, m))
    }

    /// No run holds a key of `records`.
    pub open spec fn new_to(&self, disk: &Disk, records: Seq<(i64, i64)>) -> bool {
        forall|l: nat| #[trigger]
            level_present(self.spec_tree_size(), l) ==> keys_apart(records, self.records_at(disk, l))
    }

    /// The run `cur` that a flush of a full tree has brought to level
    /// `level`: it holds the records of `2^(level - 1)` flushes, and none
    /// of its keys is a key of a run from that level up.
    pub open spec fn filling(&self, disk: &Disk, level: nat, cur: Seq<(i64, i64)>) -> bool {
        &&& cur.len() == pow2((level - 1) as nat) * self.spec_memtable_size()
        &&& forall|l: nat|
            l >= level && #[trigger] level_present(self.spec_tree_size(), l) ==> keys_apart(
                cur,
                self.records_at(disk, l),
            )
    }

    /// Merged with the run of its level, the run of a flush fills the next
    /// level.
    pub proof fn lemma_fill_step(&self, disk: &Disk, level: nat, cur: Seq<(i64, i64)>)
        requires
            1 <= level,
            self.full(disk),
            self.filling(disk, level, cur),
            level_present(self.spec_tree_size(), level),
            keys_ascend(cur),
            keys_ascend(self.records_at(disk, level)),
        ensures
            self.filling(disk, level + 1, merge_newer(self.records_at(disk, level), cur)),
    {
        let held = self.records_at(disk, level);
        let next = merge_newer(held, cur);
        lemma_merge_len(held, cur);
        assert(keys_apart(held, cur));
        lemma_pow2_unfold(level);
        assert(next.len() == pow2(level) * self.spec_memtable_size()) by (nonlinear_arith)
            requires
                next.len() == held.len() + cur.len(),
                held.len() == pow2((level - 1) as nat) * self.spec_memtable_size(),
                cur.len() == pow2((level - 1) as nat) * self.spec_memtable_size(),
                pow2(level) == 2 * pow2((level - 1) as nat),
        ;
        assert forall|l: nat|
            l >= level + 1 && #[trigger] level_present(self.spec_tree_size(), l) implies keys_apart(
            next,
            self.records_at(disk, l),
        ) by {
            assert(keys_apart(held, self.records_at(disk, l)));
            assert(keys_apart(cur, self.records_at(disk, l)));
        }
    }

    /// A flush of a full tree that has settled leaves a full tree.
    pub proof fn lemma_filled(
        &self,
        disk: &Disk,
        before: &LSMTree,
        start: &Disk,
        level: nat,
        cur: Seq<(i64, i64)>,
    )
        requires
            before.full(start),
            before.filling(start, level, cur),
            self.spec_name() == before.spec_name(),
            self.spec_memtable_size() == before.spec_memtable_size(),
            before.spec_tree_size() < u32::MAX,
            self.spec_tree_size() == before.spec_tree_size() + 1,
            1 <= level <= 32,
            low_zero(self.spec_tree_size(), (level - 1) as nat),
            level_present(self.spec_tree_size(), level),
            self.records_at(disk, level) == cur,
            same_runs(disk@, start@, self.spec_name(), before.spec_tree_size(), level + 1),
        ensures
            self.full(disk),
    {
        let t = self.spec_tree_size();
        let t0 = before.spec_tree_size();
        assert forall|l: nat| #[trigger] level_present(t, l) implies (l == level || (l > level
            && level_present(t0, l) && self.records_at(disk, l) == before.records_at(start, l))) by {
            if l < level {
                lemma_below(t, (level - 1) as nat, l);
            } else if l > level {
                lemma_above(t0, t, level, l);
            }
        }
        assert forall|l: nat| #[trigger] level_present(t, l) implies self.records_at(disk, l).len()
            == pow2((l - 1) as nat) * self.spec_memtable_size() by {}
        assert forall|l: nat, m: nat|
            #![trigger level_present(t, l), level_present(t, m)]
            level_present(t, l) && level_present(t, m) && l != m implies keys_apart(
            self.records_at(disk, l),
            self.records_at(disk, m),
        ) by {
            if l == level {
                assert(keys_apart(cur, before.records_at(start, m)));
            } else if m == level {
                assert(keys_apart(cur, before.records_at(start, l)));
            } else {
                assert(level_present(t0, l) && level_present(t0, m));
            }
        }
    }

    /// A tree that has not been flushed is full.
    pub proof fn lemma_new_full(&self, disk: &Disk)
        requires
            self.spec_tree_size() == 0,
        ensures
            self.full(disk),
    {
        assert forall|l: nat| !#[trigger] level_present(0u32, l) by {
            if 1 <= l <= 32 {
                let j = (l - 1) as u32;
                assert((0u32 >> j) & 1 == 0) by (bit_vector);
            }
        }
    }

    /// A sound tree has the files of its flush count.
    pub proof fn lemma_sound_shaped(&self, disk: &Disk)
        requires
            self.sound(disk),
        ensures
            self.shaped(disk),
    {
        assert forall|l: nat, r: nat| #[trigger]
            disk@.contains_key(leaf_path_text(self.spec_name(), l, r)) <==> level_present(
                self.spec_tree_size(),
                l,
            ) && r == level_run(self.spec_tree_size(), l) by {
            self.lemma_levels_are_bits(disk, l, r);
        }
    }

    /// A tree that has not been flushed is sound on a disk that holds none
    /// of its files, and holds no records.
    pub proof fn lemma_new_sound(&self, disk: &Disk)
        requires
            self.spec_tree_size() == 0,
            self.cached() == Seq::<crate::buffer::CacheEntry>::empty(),
            forall|l: nat, r: nat|
                !#[trigger] disk@.contains_key(leaf_path_text(self.spec_name(), l, r)),
            forall|l: nat, r: nat|
                !#[trigger] disk@.contains_key(internal_path_text(self.spec_name(), l, r)),
        ensures
            self.sound(disk),
            self.contents(disk) == Map::<i64, i64>::empty(),
    {
        assert forall|l: nat| !#[trigger] level_present(0u32, l) by {
            if 1 <= l <= 32 {
                let j = (l - 1) as u32;
                assert((0u32 >> j) & 1 == 0) by (bit_vector);
            }
        }
        assert(!level_in_reach(0u32, 1)) by {
            assert((0u32 >> 0u32) == 0) by (bit_vector);
        }
        self.lemma_held_out_of_reach(disk, 1, 1);
    }

    /// What a sound tree is in operation: each run is searched as its
    /// records say, no filter rules out a key of its run, and the map of
    /// the runs is the map of their records.
    pub proof fn lemma_sound_steady(&self, disk: &Disk)
        requires
            self.sound(disk),
        ensures
            self.steady(disk),
            forall|level: nat|
                self.held_from(disk, level) == #[trigger] records_from(
                    disk@,
                    self.spec_name(),
                    self.spec_tree_size(),
                    level,
                ),
    {
        let db = self.spec_name();
        let t = self.spec_tree_size();
        assert forall|level: nat| level_present(t, level) implies run_shaped(
            #[trigger] self.index_at(disk, level),
            self.leaves_at(disk, level),
        ) && self.run_map_at(disk, level) == entries_map(
            run_records(disk@, db, level, level_run(t, level) as nat),
        ) by {
            let recs = run_records(disk@, db, level, level_run(t, level) as nat);
            assert(run_ok(disk@, db, level, level_run(t, level) as nat));
            lemma_run_search(recs, 0);
            lemma_run_map(recs);
        }
        assert forall|level: nat, k: i64|
            level_present(t, level) && #[trigger] self.run_map_at(disk, level).contains_key(
                k,
            ) implies !self.ruled_out(level, k) by {
            let recs = run_records(disk@, db, level, level_run(t, level) as nat);
            assert(run_ok(disk@, db, level, level_run(t, level) as nat));
            assert(Self::filter_covers(self.filter_at(level), recs));
            assert(self.run_map_at(disk, level) == entries_map(recs));
            let i = index_of_key(recs, k);
            assert(recs[i].0 == k);
            if let Some(f) = self.filter_at(level) {
                lemma_filter_holds_keys(recs, f.spec_size(), i);
            }
        }
        assert forall|level: nat|
            self.held_from(disk, level) == #[trigger] records_from(disk@, db, t, level) by {
            self.lemma_held_records(disk, level);
        }
    }

    /// The map of the runs of a sound tree is the map of their records.
    pub proof fn lemma_held_records(&self, disk: &Disk, level: nat)
        requires
            self.sound(disk),
        ensures
            self.held_from(disk, level) == records_from(
                disk@,
                self.spec_name(),
                self.spec_tree_size(),
                level,
            ),
        decreases 33 - level,
    {
        let db = self.spec_name();
        let t = self.spec_tree_size();
        if 1 <= level <= 32 {
            self.lemma_held_records(disk, level + 1);
            if level_present(t, level) {
                let recs = run_records(disk@, db, level, level_run(t, level) as nat);
                assert(run_ok(disk@, db, level, level_run(t, level) as nat));
                lemma_run_map(recs);
            }
        }
    }

    /// No level above one that is out of reach holds a run.
    pub proof fn lemma_out_of_reach(tree_size: u32, level: nat, above: nat)
        requires
            1 <= level <= above,
            !level_in_reach(tree_size, level),
        ensures
            !level_present(tree_size, above),
    {
        if above <= 32 {
            let a = (level - 1) as u32;
            let b = (above - 1) as u32;
            assert((tree_size >> b) & 1 == 0) by (bit_vector)
                requires
                    a <= b < 32,
                    (tree_size >> a) == 0,
            ;
        }
    }

    /// The runs above a level that is out of reach hold nothing.
    pub proof fn lemma_held_out_of_reach(&self, disk: &Disk, level: nat, above: nat)
        requires
            1 <= level <= above,
            !level_in_reach(self.spec_tree_size(), level),
        ensures
            self.held_from(disk, above) == Map::<i64, i64>::empty(),
        decreases 33 - above,
    {
        if above <= 32 {
            Self::lemma_out_of_reach(self.spec_tree_size(), level, above);
            self.lemma_held_out_of_reach(disk, level, above + 1);
        }
    }

    /// The search through the levels finds what the map of the runs has.
    pub proof fn lemma_value_from(&self, disk: &Disk, level: nat, key: i64)
        requires
            1 <= level,
            self.filters_agree(disk),
        ensures
            self.value_from(disk, level, key) == if self.held_from(disk, level).contains_key(key) {
                Some(self.held_from(disk, level)[key])
            } else {
                None
            },
        decreases 33 - level,
    {
        if !level_in_reach(self.spec_tree_size(), level) {
            self.lemma_held_out_of_reach(disk, level, level);
        } else {
            self.lemma_value_from(disk, level + 1, key);
            if level_present(self.spec_tree_size(), level) {
                if self.run_map_at(disk, level).contains_key(key) {
                    assert(!self.ruled_out(level, key));
                }
            }
        }
    }

    /// The pages of every run are sorted as their kinds ask.
    pub open spec fn runs_shaped(&self, disk: &Disk) -> bool {
        forall|level: nat|
            level_present(self.spec_tree_size(), level) ==> run_shaped(
                #[trigger] self.index_at(disk, level),
                self.leaves_at(disk, level),
            )
    }
}

impl DiskStorage for LSMTree {
    open spec fn ready(&self) -> bool {
        self.wf()
    }

    open spec fn value_on(&self, disk: &Disk, key: i64) -> Option<i64> {
        self.value_from(disk, 1, key)
    }

    open spec fn scan_on(&self, disk: &Disk, start: i64, end: i64, map: Map<i64, i64>) -> Map<
        i64,
        i64,
    > {
        self.scan_from(disk, 1, start, end, map)
    }

    open spec fn in_step(&self, disk: &Disk) -> bool {
        coherent(self.cached(), *disk) && self.runs_shaped(disk)
    }

    open spec fn can_flush(&self, records: nat) -> bool {
        self.spec_tree_size() < u32::MAX && fits_in_file(records)
    }

    fn get(&mut self, disk: &Disk, key: i64) -> (value: Option<i64>)
        ensures
            final(self).spec_tree_size() == old(self).spec_tree_size(),
            final(self).spec_name() == old(self).spec_name(),
            final(self).spec_memtable_size() == old(self).spec_memtable_size(),
            forall|level: nat| final(self).filter_at(level) == old(self).filter_at(level),
            final(self).contents(disk) == old(self).contents(disk),
            old(self).sound(disk) ==> final(self).sound(disk) && value == if old(self).contents(
                disk,
            ).contains_key(key) {
                Some(old(self).contents(disk)[key])
            } else {
                None
            },
    {
        let ghost start = *self;
        let ghost ok = self.in_step(disk);
        let ghost names = cache_names(self.spec_name(), self.spec_tree_size() as nat, 0);
        proof {
            if self.sound(disk) {
                self.lemma_sound_steady(disk);
            }
        }
        let mut i: u32 = 1;
        while i <= MAX_LEVEL && reaches_level(self.tree_size, i)
            invariant
                1 <= i <= 33,
                self.wf(),
                start == *old(self),
                self.tree_size == start.tree_size,
                self.name == start.name,
                self.memtable_size == start.memtable_size,
                self.filters == start.filters,
                ok == start.in_step(disk),
                ok ==> coherent(self.pool@, *disk),
                ok ==> start.value_from(disk, 1, key) == start.value_from(disk, i as nat, key),
                names == cache_names(start.spec_name(), start.spec_tree_size() as nat, 0),
                start.sound(disk) ==> ok && names_within(self.pool@, names),
            decreases 33 - i,
        {
            let skip: bool = !has_level(self.tree_size, i) || match &self.filters[i as usize] {
                Some(filter) => !filter.check_key(key),
                None => false,
            };
            proof {
                assert(skip == (!level_present(start.spec_tree_size(), i as nat)
                    || start.ruled_out(i as nat, key)));
            }
            if !skip {
                let run: u32 = run_of_level(self.tree_size, i);
                let leaf_filename: String = leaf_path(self.name.as_str(), i, run);
                let internal_filename: String = internal_path(self.name.as_str(), i, run);
                proof {
                    if ok {
                        assert(run_shaped(
                            start.index_at(disk, i as nat),
                            start.leaves_at(disk, i as nat),
                        ));
                    }
                    lemma_present(self.tree_size, i as nat, i as nat);
                    assert(names.contains(leaf_filename@));
                    assert(names.contains(internal_filename@));
                }
                let value: Option<i64> = part3_search_b_tree_sst(
                    disk,
                    leaf_filename.as_str(),
                    internal_filename.as_str(),
                    key,
                    &mut self.pool,
                );
                proof {
                    if ok {
                        assert(value == run_search(
                            start.index_at(disk, i as nat),
                            start.leaves_at(disk, i as nat),
                            key,
                        ));
                        assert(self.runs_shaped(disk)) by {
                            assert forall|level: nat|
                                level_present(self.spec_tree_size(), level) implies run_shaped(
                                #[trigger] self.index_at(disk, level),
                                self.leaves_at(disk, level),
                            ) by {
                                assert(self.index_at(disk, level) == start.index_at(disk, level));
                                assert(self.leaves_at(disk, level) == start.leaves_at(disk, level));
                            }
                        }
                    }
                }
                if value.is_some() {
                    proof {
                        assert forall|level: nat| self.filter_at(level) == start.filter_at(
                            level,
                        ) by {}
                        self.lemma_same_tree(&start, disk);
                        if start.sound(disk) {
                            start.lemma_sound_steady(disk);
                            start.lemma_value_from(disk, 1, key);
                            self.lemma_still_sound(&start, disk);
                        }
                    }
                    return value;
                }
            }
            i += 1;
        }
        proof {
            if ok {
                assert(self.runs_shaped(disk)) by {
                    assert forall|level: nat|
                        level_present(self.spec_tree_size(), level) implies run_shaped(
                        #[trigger] self.index_at(disk, level),
                        self.leaves_at(disk, level),
                    ) by {
                        assert(self.index_at(disk, level) == start.index_at(disk, level));
                        assert(self.leaves_at(disk, level) == start.leaves_at(disk, level));
                    }
                }
            }
            assert forall|level: nat| self.filter_at(level) == start.filter_at(level) by {}
            self.lemma_same_tree(&start, disk);
            if start.sound(disk) {
                start.lemma_sound_steady(disk);
                start.lemma_value_from(disk, 1, key);
                self.lemma_still_sound(&start, disk);
            }
        }
        None
    }

    fn scan(&mut self, disk: &Disk, start: i64, end: i64, hash: &mut HashMap<i64, i64>)
        ensures
            final(self).spec_tree_size() == old(self).spec_tree_size(),
            final(self).spec_name() == old(self).spec_name(),
            final(self).spec_memtable_size() == old(self).spec_memtable_size(),
            forall|level: nat| final(self).filter_at(level) == old(self).filter_at(level),
            final(self).contents(disk) == old(self).contents(disk),
            old(self).sound(disk) ==> final(self).sound(disk) && final(hash)@
                == crate::records::merged(
                old(hash)@,
                crate::records::range_of(old(self).contents(disk), start, end),
            ),
    {
        let ghost begin = *self;
        let ghost ok = self.in_step(disk);
        let ghost names = cache_names(self.spec_name(), self.spec_tree_size() as nat, 0);
        proof {
            if self.sound(disk) {
                self.lemma_sound_steady(disk);
                self.lemma_scan_from(disk, 1, start, end, hash@);
            }
        }
        let mut i: u32 = 1;
        while i <= MAX_LEVEL && reaches_level(self.tree_size, i)
            invariant
                1 <= i <= 33,
                self.wf(),
                begin == *old(self),
                names == cache_names(begin.spec_name(), begin.spec_tree_size() as nat, 0),
                begin.sound(disk) ==> ok && names_within(self.pool@, names),
                self.tree_size == begin.tree_size,
                self.name == begin.name,
                self.memtable_size == begin.memtable_size,
                self.filters == begin.filters,
                ok == begin.in_step(disk),
                ok ==> coherent(self.pool@, *disk),
                ok ==> begin.scan_from(disk, 1, start, end, old(hash)@) == begin.scan_from(
                    disk,
                    i as nat,
                    start,
                    end,
                    hash@,
                ),
            decreases 33 - i,
        {
            if has_level(self.tree_size, i) {
                let run: u32 = run_of_level(self.tree_size, i);
                let leaf_filename: String = leaf_path(self.name.as_str(), i, run);
                let internal_filename: String = internal_path(self.name.as_str(), i, run);
                proof {
                    if ok {
                        assert(run_shaped(
                            begin.index_at(disk, i as nat),
                            begin.leaves_at(disk, i as nat),
                        ));
                    }
                    lemma_present(self.tree_size, i as nat, i as nat);
                    assert(names.contains(leaf_filename@));
                    assert(names.contains(internal_filename@));
                }
                part3_scan_b_tree_sst(
                    disk,
                    leaf_filename.as_str(),
                    internal_filename.as_str(),
                    start,
                    end,
                    hash,
                    &mut self.pool,
                );
            }
            i += 1;
        }
        proof {
            if ok {
                assert(self.runs_shaped(disk)) by {
                    assert forall|level: nat|
                        level_present(self.spec_tree_size(), level) implies run_shaped(
                        #[trigger] self.index_at(disk, level),
                        self.leaves_at(disk, level),
                    ) by {
                        assert(self.index_at(disk, level) == begin.index_at(disk, level));
                        assert(self.leaves_at(disk, level) == begin.leaves_at(disk, level));
                    }
                }
            }
            assert forall|level: nat| self.filter_at(level) == begin.filter_at(level) by {}
            self.lemma_same_tree(&begin, disk);
            if begin.sound(disk) {
                self.lemma_still_sound(&begin, disk);
            }
        }
    }

    fn flush(&mut self, disk: &mut Disk, sst_count: u32, contents: Vec<(i64, i64)>)
        ensures
            final(self).spec_name() == old(self).spec_name(),
            final(self).spec_memtable_size() == old(self).spec_memtable_size(),
            final(self).spec_tree_size() == if contents@.len() == 0 {
                old(self).spec_tree_size()
            } else {
                (old(self).spec_tree_size() + 1) as u32
            },
            contents@.len() == 0 ==> *final(self) == *old(self) && *final(disk) == *old(disk),
            old(self).shaped(old(disk)) ==> final(self).shaped(final(disk)),
            old(self).sound(old(disk)) && keys_ascend(contents@) && clean(contents@)
                ==> final(self).sound(final(disk)) && final(self).contents(final(disk)) == old(
                self,
            ).contents(old(disk)).union_prefer_right(entries_map(contents@)),
            old(self).sound(old(disk)) && keys_ascend(contents@) && clean(contents@)
                && contents@.len() > 0 ==> forall|l: nat| #[trigger]
                level_present(final(self).spec_tree_size(), l) ==> final(self).records_at(
                    final(disk),
                    l,
                ) == (if low_zero(final(self).spec_tree_size(), (l - 1) as nat) {
                    old(self).carried(old(disk), l, contents@)
                } else {
                    old(self).records_at(old(disk), l)
                }),
            old(self).sound(old(disk)) && keys_ascend(contents@) && clean(contents@) && old(
                self,
            ).full(old(disk)) && contents@.len() == old(self).spec_memtable_size() && old(
                self,
            ).new_to(old(disk), contents@) ==> final(self).full(final(disk)),
    {
        let ghost before = *self;
        let ghost start = *disk;
        let ghost ok = self.sound(disk) && keys_ascend(contents@) && clean(contents@);
        let ghost fill = ok && self.full(disk) && contents@.len() == self.spec_memtable_size()
            && self.new_to(disk, contents@);
        let ghost shape = self.shaped(disk);
        if contents.len() == 0 {
            proof {
                if ok {
                    assert(entries_map(contents@) =~= Map::<i64, i64>::empty());
                    assert(self.contents(disk).union_prefer_right(entries_map(contents@))
                        =~= self.contents(disk));
                }
            }
            return ;
        }
        self.tree_size = self.tree_size + 1;
        let leaf_file_path: String = leaf_path(self.name.as_str(), 1, self.tree_size);
        let internal_file_path: String = internal_path(self.name.as_str(), 1, self.tree_size);
        serialize_kv_to_file(disk, leaf_file_path.as_str(), &contents);
        let ghost with_leaf = *disk;
        part3_create_b_tree_internal_file(
            disk,
            leaf_file_path.as_str(),
            internal_file_path.as_str(),
        );
        let filter: Bitmap = construct_filter(&contents, &BITS_PER_ENTRY);
        self.filters[1] = Some(filter);
        let ghost goal = records_from(
            start@,
            before.spec_name(),
            before.spec_tree_size(),
            1,
        ).union_prefer_right(entries_map(contents@));
        let ghost mut cur: Seq<(i64, i64)> = contents@;
        proof {
            if ok {
                assert forall|l: nat| l != 1 implies self.filter_at(l) == before.filter_at(l) by {}
                self.lemma_start_flush(&before, &start, &with_leaf, &*disk, contents@);
            }
            if fill {
                lemma2_to64();
            }
            if shape {
                self.lemma_shape_start(&before, &start, &*disk);
            }
        }
        let mut level: u32 = 1;
        while level < MAX_LEVEL && !has_level(self.tree_size, level)
            invariant
                1 <= level <= 32,
                self.wf(),
                self.spec_name() == old(self).spec_name(),
                self.memtable_size == old(self).memtable_size,
                self.tree_size == old(self).tree_size + 1,
                before == *old(self),
                ok ==> self.flushing(disk, before.spec_tree_size(), level as nat, cur),
                ok ==> goal == records_from(
                    disk@,
                    before.spec_name(),
                    before.spec_tree_size(),
                    level as nat,
                ).union_prefer_right(entries_map(cur)),
                ok ==> same_runs(
                    disk@,
                    start@,
                    before.spec_name(),
                    before.spec_tree_size(),
                    level as nat,
                ),
                ok ==> cur == before.carried(&start, level as nat, contents@),
                shape ==> self.shaping(disk, before.spec_tree_size(), level as nat),
                fill ==> ok && before.full(&start) && before.filling(&start, level as nat, cur),
            decreases 32 - level,
        {
            let ghost d0 = *disk;
            let ghost was = cur;
            self.merge_ssts(disk, level, Ghost(before.spec_tree_size()), Ghost(cur));
            proof {
                if ok {
                    let db = before.spec_name();
                    let t0 = before.spec_tree_size();
                    let recs = run_records(d0@, db, level as nat, level_run(t0, level as nat) as nat);
                    cur = merge_newer(recs, was);
                    lemma_carry(t0, self.tree_size, level as nat);
                    assert(run_ok(d0@, db, level as nat, level_run(t0, level as nat) as nat));
                    lemma_merge_newer(recs, was);
                    lemma_records_frame(disk@, d0@, db, t0, (level + 1) as nat);
                    assert(records_from(d0@, db, t0, level as nat) == records_from(
                        d0@,
                        db,
                        t0,
                        (level + 1) as nat,
                    ).union_prefer_right(entries_map(recs)));
                    assert(goal =~= records_from(
                        disk@,
                        db,
                        t0,
                        (level + 1) as nat,
                    ).union_prefer_right(entries_map(cur)));
                    assert(recs == before.records_at(&start, level as nat));
                    if fill {
                        before.lemma_fill_step(&start, level as nat, was);
                    }
                }
            }
            level += 1;
        }
        proof {
            if shape {
                if !level_present(self.spec_tree_size(), level as nat) {
                    lemma_carry(before.spec_tree_size(), self.tree_size, level as nat);
                }
                self.lemma_shape_settle(disk, before.spec_tree_size(), level as nat);
            }
            if ok {
                let t0 = before.spec_tree_size();
                if !level_present(self.spec_tree_size(), level as nat) {
                    lemma_carry(t0, self.tree_size, level as nat);
                }
                self.lemma_settle_flush(disk, t0, level as nat, cur);
                lemma_settle(t0, self.tree_size, level as nat);
                self.lemma_sound_steady(disk);
                before.lemma_sound_steady(&start);
                assert(records_from(disk@, before.spec_name(), t0, level as nat) == records_from(
                    disk@,
                    before.spec_name(),
                    t0,
                    (level + 1) as nat,
                ));
                lemma_run_records(disk@, self.spec_name(), level as nat, self.tree_size as nat, cur);
                assert forall|l: nat| #[trigger] level_present(self.spec_tree_size(), l) implies
                    self.records_at(disk, l) == (if low_zero(
                    self.spec_tree_size(),
                    (l - 1) as nat,
                ) {
                    before.carried(&start, l, contents@)
                } else {
                    before.records_at(&start, l)
                }) by {
                    self.lemma_runs_after(disk, &before, &start, level as nat, cur, l);
                }
                if fill {
                    self.lemma_filled(disk, &before, &start, level as nat, cur);
                }
            }
        }
    }
}

impl LSMTree {
    /// Merges the two runs at level `level`, the older one and the one that
    /// the last flush or merge put there, into one run at the next level,
    /// and removes the files of the two.
    fn merge_ssts(
        &mut self,
        disk: &mut Disk,
        level: u32,
        Ghost(before): Ghost<u32>,
        Ghost(cur): Ghost<Seq<(i64, i64)>>,
    )
        requires
            old(self).wf(),
            1 <= level < 32,
        ensures
            final(self).wf(),
            final(self).spec_name() == old(self).spec_name(),
            final(self).spec_memtable_size() == old(self).spec_memtable_size(),
            final(self).spec_tree_size() == old(self).spec_tree_size(),
            old(self).shaping(old(disk), before, level as nat) && !level_present(
                old(self).spec_tree_size(),
                level as nat,
            ) ==> final(self).shaping(final(disk), before, (level + 1) as nat),
            final(self).filter_at(level as nat) is None,
            final(self).filter_at((level + 1) as nat) is Some,
            final(self).filter_at((level + 1) as nat)->0.spec_size() == merged_filter_size(
                level,
                old(self).spec_memtable_size(),
            ),
            forall|l: nat|
                l != level && l != level + 1 ==> final(self).filter_at(l) == old(self).filter_at(l),
            old(self).flushing(old(disk), before, level as nat, cur) && !level_present(
                old(self).spec_tree_size(),
                level as nat,
            ) ==> final(self).filter_at((level + 1) as nat)->0@ == filter_bits(
                merge_newer(
                    run_records(
                        old(disk)@,
                        old(self).spec_name(),
                        level as nat,
                        level_run(before, level as nat) as nat,
                    ),
                    cur,
                ),
                merged_filter_size(level, old(self).spec_memtable_size()),
            ),
            old(self).flushing(old(disk), before, level as nat, cur) && !level_present(
                old(self).spec_tree_size(),
                level as nat,
            ) ==> final(self).flushing(
                final(disk),
                before,
                (level + 1) as nat,
                merge_newer(
                    run_records(
                        old(disk)@,
                        old(self).spec_name(),
                        level as nat,
                        level_run(before, level as nat) as nat,
                    ),
                    cur,
                ),
            ) && forall|l: nat|
                l >= level + 1 && #[trigger] level_present(before, l) ==> run_records(
                    final(disk)@,
                    old(self).spec_name(),
                    l,
                    level_run(before, l) as nat,
                ) == run_records(old(disk)@, old(self).spec_name(), l, level_run(before, l) as nat),
    {
        let ghost start = *self;
        let ghost d0 = *disk;
        let ghost ok = self.flushing(disk, before, level as nat, cur) && !level_present(
            self.spec_tree_size(),
            level as nat,
        );
        let half: u32 = 1u32 << (level - 1);
        let older: u32 = if self.tree_size >= half {
            self.tree_size - half
        } else {
            0
        };
        proof {
            if ok {
                lemma_carry(before, self.tree_size, level as nat);
            }
        }
        let first_sst: String = leaf_path(self.name.as_str(), level, older);
        let first_internal: String = internal_path(self.name.as_str(), level, older);
        let second_sst: String = leaf_path(self.name.as_str(), level, self.tree_size);
        let second_internal: String = internal_path(self.name.as_str(), level, self.tree_size);
        let output_file_name: String = leaf_path(self.name.as_str(), level + 1, self.tree_size);
        let output_file_internal: String = internal_path(
            self.name.as_str(),
            level + 1,
            self.tree_size,
        );
        let mut new_filter: Bitmap = Bitmap::new(filter_size_for(level, self.memtable_size));
        proof {
            if ok {
                let db = self.spec_name();
                Self::lemma_avoids_next(
                    self.cached(),
                    db,
                    before as nat,
                    level as nat,
                    (level + 1) as nat,
                );
                lemma_lsm_paths(db, level as nat, older as nat, (level + 1) as nat, self.tree_size as nat);
                lemma_lsm_paths(
                    db,
                    level as nat,
                    self.tree_size as nat,
                    (level + 1) as nat,
                    self.tree_size as nat,
                );
                lemma_present(before, level as nat, level as nat);
                assert(cache_names(db, before as nat, level as nat).contains(first_sst@));
                assert(cache_names(db, before as nat, level as nat).contains(second_sst@));
                assert(run_ok(d0@, db, level as nat, level_run(before, level as nat) as nat));
                crate::storage::merge::lemma_flat_chunks(cur);
                assert(merged_runs(d0@, first_sst@, second_sst@) == merge_newer(
                    run_records(d0@, db, level as nat, level_run(before, level as nat) as nat),
                    cur,
                ));
            }
        }
        disk.note_names();
        merge_runs(
            disk,
            &mut self.pool,
            first_sst.as_str(),
            second_sst.as_str(),
            output_file_name.as_str(),
            &mut new_filter,
        );
        disk.note_names();
        let ghost d1 = *disk;
        let _ = disk.file_len(output_file_name.as_str());
        part3_create_b_tree_internal_file(
            disk,
            output_file_name.as_str(),
            output_file_internal.as_str(),
        );
        let ghost d2 = *disk;
        let _ = disk.remove(first_sst.as_str());
        let ghost d3 = *disk;
        let _ = disk.remove(second_sst.as_str());
        let ghost d4 = *disk;
        let _ = disk.remove(first_internal.as_str());
        let ghost d5 = *disk;
        let _ = disk.remove(second_internal.as_str());
        self.filters[level as usize] = None;
        self.filters[level as usize + 1] = Some(new_filter);
        proof {
            if start.shaping(&d0, before, level as nat) && !level_present(
                start.spec_tree_size(),
                level as nat,
            ) {
                lemma_carry(before, self.tree_size, level as nat);
                assert forall|p: Seq<char>|
                    d1@.contains_key(p) <==> d0@.contains_key(p) || p
                        == output_file_name@ by {
                    let n0 = d0.names();
                    let n1 = d1.names();
                    assert(d0@.contains_key(p) == n0.contains(p));
                    assert(d1@.contains_key(p) == n1.contains(p));
                    assert(d0@.contains_key(output_file_name@) == n0.contains(output_file_name@));
                    if d0@.contains_key(output_file_name@) {
                        assert(n1 == n0);
                    }
                    if !d0@.contains_key(output_file_name@) {
                        assert(n1 == n0.push(output_file_name@));
                        assert(n1[n0.len() as int] == output_file_name@);
                        if n1.contains(p) {
                            let i = choose|i: int| 0 <= i < n1.len() && n1[i] == p;
                            if i < n0.len() {
                                assert(n0[i] == p);
                            }
                        }
                        if n0.contains(p) {
                            let i = choose|i: int| 0 <= i < n0.len() && n0[i] == p;
                            assert(n1[i] == p);
                        }
                    }
                }
                start.lemma_shape_merge(&d0, &d1, &d2, &d3, &d4, &d5, &*disk, before, level as nat);
                assert(self.spec_name() == start.spec_name());
                assert(self.spec_tree_size() == start.spec_tree_size());
            }
            if ok {
                assert forall|l: nat| l != level && l != level + 1 implies self.filter_at(l)
                    == start.filter_at(l) by {}
                self.lemma_merge_step(
                    &start,
                    &d0,
                    &d1,
                    &d2,
                    &d3,
                    &d4,
                    &d5,
                    &*disk,
                    before,
                    level as nat,
                    cur,
                );
            }
        }
    }
}

} // verus!
