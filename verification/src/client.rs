//! The store: a write buffer in front of one storage backend.

use crate::disk::{Disk, lemma_none_counted};
use crate::memtable::tree::AVLTree;
use crate::page::{padding_record, storable};
use crate::path::{db_prefix, db_prefix_text, internal_path_text, leaf_path_text};
use crate::records::{TOMBSTONE, entries_map, keys_ascend, live_entries, merged, range_of};
use crate::storage::backends::{AppendOnlyLog, BTree};
use crate::storage::lsm::LSMTree;
use crate::storage::runs::clean;
use crate::storage::traits::DiskStorage;
use std::collections::HashMap;
use vstd::prelude::*;

verus! {

/// The kinds of storage backend.
#[derive(Clone, Copy, PartialEq, Eq, Structural, Debug)]
pub enum StorageType {
    /// One sorted run for each flush.
    AppendOnlyLog,
    /// One search tree for each flush.
    BTree,
    /// A log-structured merge tree.
    LSMTree,
}

/// The settings of a store.
pub struct KVConfig {
    /// The number of records at which the write buffer is flushed.
    memtable_size: u32,
    /// The number of pages that the page cache may hold.
    bufferpool_size: usize,
    /// Whether the files of the store are removed when the store is dropped.
    cleanup: bool,
    /// The kind of storage backend.
    storage_type: StorageType,
}

impl KVConfig {
    /// The number of records at which the write buffer is flushed.
    pub closed spec fn spec_memtable_size(&self) -> u32 {
        self.memtable_size
    }

    /// The number of pages that the page cache may hold.
    pub closed spec fn spec_bufferpool_size(&self) -> usize {
        self.bufferpool_size
    }

    /// Whether the files of the store are removed when the store is dropped.
    pub closed spec fn spec_cleanup(&self) -> bool {
        self.cleanup
    }

    /// The kind of storage backend.
    pub closed spec fn spec_storage_type(&self) -> StorageType {
        self.storage_type
    }

    /// The settings with the write buffer flushed at `size` records.
    pub fn memtable_size(self, size: u32) -> (config: Self)
        ensures
            config.spec_memtable_size() == size,
            config.spec_bufferpool_size() == self.spec_bufferpool_size(),
            config.spec_cleanup() == self.spec_cleanup(),
            config.spec_storage_type() == self.spec_storage_type(),
    {
        let mut config = self;
        config.memtable_size = size;
        config
    }

    /// The settings with a page cache of `size` pages.
    pub fn bufferpool_size(self, size: usize) -> (config: Self)
        ensures
            config.spec_memtable_size() == self.spec_memtable_size(),
            config.spec_bufferpool_size() == size,
            config.spec_cleanup() == self.spec_cleanup(),
            config.spec_storage_type() == self.spec_storage_type(),
    {
        let mut config = self;
        config.bufferpool_size = size;
        config
    }

    /// The settings with the backend `storage`.
    pub fn storage_type(self, storage: StorageType) -> (config: Self)
        ensures
            config.spec_memtable_size() == self.spec_memtable_size(),
            config.spec_bufferpool_size() == self.spec_bufferpool_size(),
            config.spec_cleanup() == self.spec_cleanup(),
            config.spec_storage_type() == storage,
    {
        let mut config = self;
        config.storage_type = storage;
        config
    }

    /// The settings with the files removed on drop, or kept.
    pub fn cleanup(self, cleanup: bool) -> (config: Self)
        ensures
            config.spec_memtable_size() == self.spec_memtable_size(),
            config.spec_bufferpool_size() == self.spec_bufferpool_size(),
            config.spec_cleanup() == cleanup,
            config.spec_storage_type() == self.spec_storage_type(),
    {
        let mut config = self;
        config.cleanup = cleanup;
        config
    }
}

impl Default for KVConfig {
    /// A write buffer and a page cache of 256 each, files kept, the
    /// append-only backend.
    fn default() -> (config: Self)
        ensures
            config.spec_memtable_size() == 256,
            config.spec_bufferpool_size() == 256,
            !config.spec_cleanup(),
            config.spec_storage_type() == StorageType::AppendOnlyLog,
    {
        Self {
            memtable_size: 256,
            bufferpool_size: 256,
            cleanup: false,
            storage_type: StorageType::AppendOnlyLog,
        }
    }
}

/// The storage backend of a store: one of the three kinds.
pub enum Backend {
    /// The append-only backend.
    Log(AppendOnlyLog),
    /// The search-tree backend.
    Tree(BTree),
    /// The log-structured merge tree.
    Lsm(LSMTree),
}

impl Backend {
    /// The backend is in a state in which it can be used.
    pub open spec fn ready(&self) -> bool {
        match self {
            Backend::Log(log) => log.ready(),
            Backend::Tree(tree) => tree.ready(),
            Backend::Lsm(lsm) => lsm.ready(),
        }
    }

    /// What a lookup of `key` returns on `disk`.
    pub open spec fn value_on(&self, disk: &Disk, key: i64) -> Option<i64> {
        match self {
            Backend::Log(log) => log.value_on(disk, key),
            Backend::Tree(tree) => tree.value_on(disk, key),
            Backend::Lsm(lsm) => lsm.value_on(disk, key),
        }
    }

    /// What a scan for the keys from `start` to `end` leaves in `map`.
    pub open spec fn scan_on(&self, disk: &Disk, start: i64, end: i64, map: Map<i64, i64>) -> Map<
        i64,
        i64,
    > {
        match self {
            Backend::Log(log) => log.scan_on(disk, start, end, map),
            Backend::Tree(tree) => tree.scan_on(disk, start, end, map),
            Backend::Lsm(lsm) => lsm.scan_on(disk, start, end, map),
        }
    }

    /// The pages that the backend has cached are those of `disk`, and the
    /// files of the backend are sorted runs.
    pub open spec fn in_step(&self, disk: &Disk) -> bool {
        match self {
            Backend::Log(log) => log.in_step(disk),
            Backend::Tree(tree) => tree.in_step(disk),
            Backend::Lsm(lsm) => lsm.in_step(disk),
        }
    }

    /// The files of the backend are what its flushes made of them, and the
    /// pages that it has cached are those of the files; `runs` is the number
    /// of runs written so far.
    pub open spec fn sound(&self, disk: &Disk, runs: nat) -> bool {
        match self {
            Backend::Log(log) => log.sound(disk, runs),
            Backend::Tree(tree) => tree.sound(disk, runs),
            Backend::Lsm(lsm) => lsm.sound(disk),
        }
    }

    /// The records that the backend holds: under each key its newest value.
    pub open spec fn contents(&self, disk: &Disk, runs: nat) -> Map<i64, i64> {
        match self {
            Backend::Log(log) => log.contents(disk, runs),
            Backend::Tree(tree) => tree.contents(disk, runs),
            Backend::Lsm(lsm) => lsm.contents(disk),
        }
    }

    /// A scan of a sound backend gathers the records of the backend whose
    /// keys lie from `start` to `end`.
    pub proof fn lemma_scan_all(
        &self,
        disk: &Disk,
        runs: nat,
        start: i64,
        end: i64,
        map: Map<i64, i64>,
    )
        requires
            self.sound(disk, runs),
        ensures
            self.scan_on(disk, start, end, map) == merged(
                map,
                range_of(self.contents(disk, runs), start, end),
            ),
    {
        match self {
            Backend::Log(log) => {
                crate::scans::lemma_scan_all_runs(disk@, log.spec_name(), runs, start, end, map);
            },
            Backend::Tree(tree) => {
                crate::scans::lemma_scan_all_trees(disk@, tree.spec_name(), runs, start, end, map);
            },
            Backend::Lsm(lsm) => {
                lsm.lemma_scan_from(disk, 1, start, end, map);
            },
        }
    }

    /// The backend can take a run of `records` records.
    pub open spec fn can_flush(&self, records: nat) -> bool {
        match self {
            Backend::Log(log) => log.can_flush(records),
            Backend::Tree(tree) => tree.can_flush(records),
            Backend::Lsm(lsm) => lsm.can_flush(records),
        }
    }

    /// Whether the backend can take a run of `records` records.
    pub fn can_take(&self, records: u64) -> (can: bool)
        ensures
            can == self.can_flush(records as nat),
    {
        let fits: bool = records <= (usize::MAX - 4096) as u64 / 16;
        match self {
            Backend::Log(_) => fits,
            Backend::Tree(_) => fits,
            Backend::Lsm(lsm) => fits && lsm.tree_size() < u32::MAX,
        }
    }

    /// The name of the database whose files the backend keeps.
    pub open spec fn spec_name(&self) -> Seq<char> {
        match self {
            Backend::Log(log) => log.spec_name(),
            Backend::Tree(tree) => tree.spec_name(),
            Backend::Lsm(lsm) => lsm.spec_name(),
        }
    }

    /// The number of flushes that the backend has counted: the merge tree
    /// counts the flushes that brought records; the other backends keep no
    /// count.
    pub open spec fn flush_count(&self) -> nat {
        match self {
            Backend::Lsm(lsm) => lsm.spec_tree_size() as nat,
            _ => 0,
        }
    }

    /// By how much a flush of `records` records raises the count of the
    /// backend.
    pub open spec fn counts(&self, records: nat) -> nat {
        if self.kind() == StorageType::LSMTree && records > 0 {
            1
        } else {
            0
        }
    }

    /// The kind of the backend.
    pub open spec fn kind(&self) -> StorageType {
        match self {
            Backend::Log(_) => StorageType::AppendOnlyLog,
            Backend::Tree(_) => StorageType::BTree,
            Backend::Lsm(_) => StorageType::LSMTree,
        }
    }

    /// The value under `key`, if the backend holds the key.
    pub fn get(&mut self, disk: &Disk, key: i64) -> (value: Option<i64>)
        requires
            old(self).ready(),
        ensures
            final(self).ready(),
            final(self).kind() == old(self).kind(),
            final(self).spec_name() == old(self).spec_name(),
            final(self).flush_count() == old(self).flush_count(),
            old(self).in_step(disk) ==> final(self).in_step(disk) && value == old(self).value_on(
                disk,
                key,
            ),
            forall|runs: nat|
                #![trigger old(self).sound(disk, runs)]
                old(self).sound(disk, runs) ==> final(self).sound(disk, runs) && final(self).contents(
                    disk,
                    runs,
                ) == old(self).contents(disk, runs) && value == if old(self).contents(
                    disk,
                    runs,
                ).contains_key(key) {
                    Some(old(self).contents(disk, runs)[key])
                } else {
                    None
                },
    {
        match self {
            Backend::Log(log) => {
                let ghost before = *log;
                let value = log.get(disk, key);
                proof {
                    assert forall|runs: nat| #[trigger] before.sound(disk, runs) implies log.sound(
                        disk,
                        runs,
                    ) && log.contents(disk, runs) == before.contents(disk, runs) && value
                        == if before.contents(disk, runs).contains_key(key) {
                        Some(before.contents(disk, runs)[key])
                    } else {
                        None
                    } by {
                        assert(runs == before.runs_on(disk));
                    }
                }
                value
            },
            Backend::Tree(tree) => {
                let ghost before = *tree;
                let value = tree.get(disk, key);
                proof {
                    assert forall|runs: nat| #[trigger] before.sound(disk, runs) implies tree.sound(
                        disk,
                        runs,
                    ) && tree.contents(disk, runs) == before.contents(disk, runs) && value
                        == if before.contents(disk, runs).contains_key(key) {
                        Some(before.contents(disk, runs)[key])
                    } else {
                        None
                    } by {
                        assert(runs == before.runs_on(disk));
                    }
                }
                value
            },
            Backend::Lsm(lsm) => lsm.get(disk, key),
        }
    }

    /// Adds to `hash` the records whose keys lie from `start` to `end`, both
    /// included, except under keys that `hash` holds already.
    pub fn scan(&mut self, disk: &Disk, start: i64, end: i64, hash: &mut HashMap<i64, i64>)
        requires
            old(self).ready(),
        ensures
            final(self).ready(),
            final(self).kind() == old(self).kind(),
            final(self).spec_name() == old(self).spec_name(),
            final(self).flush_count() == old(self).flush_count(),
            old(self).in_step(disk) ==> final(self).in_step(disk) && final(hash)@ == old(
                self,
            ).scan_on(disk, start, end, old(hash)@),
            forall|runs: nat|
                #![trigger old(self).sound(disk, runs)]
                old(self).sound(disk, runs) ==> final(self).sound(disk, runs) && final(self).contents(
                    disk,
                    runs,
                ) == old(self).contents(disk, runs) && final(hash)@ == old(self).scan_on(
                    disk,
                    start,
                    end,
                    old(hash)@,
                ),
    {
        match self {
            Backend::Log(log) => {
                let ghost before = *log;
                log.scan(disk, start, end, hash);
                proof {
                    assert forall|runs: nat| #[trigger] before.sound(disk, runs) implies log.sound(
                        disk,
                        runs,
                    ) && log.contents(disk, runs) == before.contents(disk, runs) && hash@
                        == before.scan_on(disk, start, end, old(hash)@) by {
                        assert(runs == before.runs_on(disk));
                    }
                }
            },
            Backend::Tree(tree) => {
                let ghost before = *tree;
                tree.scan(disk, start, end, hash);
                proof {
                    assert forall|runs: nat| #[trigger] before.sound(disk, runs) implies tree.sound(
                        disk,
                        runs,
                    ) && tree.contents(disk, runs) == before.contents(disk, runs) && hash@
                        == before.scan_on(disk, start, end, old(hash)@) by {
                        assert(runs == before.runs_on(disk));
                    }
                }
            },
            Backend::Lsm(lsm) => {
                let ghost before = *lsm;
                proof {
                    if before.sound(disk) {
                        before.lemma_scan_from(disk, 1, start, end, hash@);
                    }
                }
                lsm.scan(disk, start, end, hash);
            },
        }
    }

    /// Writes the records of `contents`, which are sorted by key, as a new
    /// run; `sst_count` is the number of runs written so far.
    pub fn flush(&mut self, disk: &mut Disk, sst_count: u32, contents: Vec<(i64, i64)>)
        requires
            old(self).ready(),
            old(self).can_flush(contents@.len()),
        ensures
            final(self).ready(),
            final(self).kind() == old(self).kind(),
            final(self).spec_name() == old(self).spec_name(),
            final(self).flush_count() == old(self).flush_count() + old(self).counts(
                contents@.len(),
            ),
            contents@.len() == 0 && old(self).kind() == StorageType::LSMTree ==> *final(disk)
                == *old(disk),
            old(self).sound(old(disk), sst_count as nat) && keys_ascend(contents@) && (if old(
                self,
            ).kind() == StorageType::LSMTree {
                clean(contents@)
            } else {
                storable(contents@)
            }) ==> final(self).sound(final(disk), sst_count as nat + 1) && final(self).contents(
                final(disk),
                sst_count as nat + 1,
            ) == old(self).contents(old(disk), sst_count as nat).union_prefer_right(
                entries_map(contents@),
            ),
    {
        match self {
            Backend::Log(log) => log.flush(disk, sst_count, contents),
            Backend::Tree(tree) => tree.flush(disk, sst_count, contents),
            Backend::Lsm(lsm) => lsm.flush(disk, sst_count, contents),
        }
    }
}

/// What a reader of the store sees of a value: nothing where the value
/// marks a deleted key.
pub open spec fn visible(value: Option<i64>) -> Option<i64> {
    if value == Some(TOMBSTONE) {
        None
    } else {
        value
    }
}

/// A flush of the records of `map` can be read back: no page of the run
/// that holds them in ascending order of key ends with the padding record.
pub open spec fn readable_back(map: Map<i64, i64>) -> bool {
    forall|records: Seq<(i64, i64)>|
        keys_ascend(records) && #[trigger] entries_map(records) == map ==> storable(records)
}

/// The map does not hold the padding record.
pub open spec fn without_padding(map: Map<i64, i64>) -> bool {
    !(map.contains_key(padding_record().0) && map[padding_record().0] == padding_record().1)
}

/// The records of a map without the padding record are without it.
pub proof fn lemma_without_padding(map: Map<i64, i64>, records: Seq<(i64, i64)>)
    requires
        without_padding(map),
        keys_ascend(records),
        entries_map(records) == map,
    ensures
        clean(records),
{
    assert forall|i: int| 0 <= i < records.len() implies #[trigger] records[i]
        != padding_record() by {
        crate::records::lemma_entry_at(records, i);
    }
}

/// A map without the padding record can be read back after a flush.
pub proof fn lemma_readable_back(map: Map<i64, i64>)
    requires
        !(map.contains_key(padding_record().0) && map[padding_record().0] == padding_record().1),
    ensures
        readable_back(map),
{
    assert forall|records: Seq<(i64, i64)>|
        keys_ascend(records) && #[trigger] entries_map(records) == map implies storable(
        records,
    ) by {
        assert forall|p: int| 0 <= p < crate::page::page_count(records.len()) implies (
        #[trigger] crate::page::chunk(records, p)).last() != padding_record() by {
            let page = crate::page::chunk(records, p);
            crate::sst::lemma_chunk_at(records, p, 0);
            crate::sst::lemma_chunk_at(records, p, page.len() - 1);
            let at = 256 * p + page.len() - 1;
            crate::records::lemma_entry_at(records, at);
        }
    }
}

/// The store.
pub struct Client {
    /// The name of the database.
    name: String,
    /// The write buffer.
    memtable: AVLTree,
    /// The number of records at which the write buffer is flushed.
    memtable_size: u32,
    /// The number of runs written so far.
    sst_count: u32,
    /// The storage backend.
    storage: Backend,
    /// Whether the files of the store are to be removed on drop.
    cleanup: bool,
    /// The files of the store.
    disk: Disk,
}

impl View for Client {
    type V = Map<i64, i64>;

    /// The store as a map: under each key the value of the newest write,
    /// which is the tombstone where the key was deleted.
    open spec fn view(&self) -> Map<i64, i64> {
        self.stored().union_prefer_right(self.buffered())
    }
}

/// What a lookup of `key` returns from a store that stands for `map`.
pub open spec fn found_in(map: Map<i64, i64>, key: i64) -> Option<i64> {
    if map.contains_key(key) && map[key] != TOMBSTONE {
        Some(map[key])
    } else {
        None
    }
}

impl Client {
    /// The name of the database.
    pub closed spec fn spec_name(&self) -> Seq<char> {
        self.name@
    }

    /// The records of the write buffer.
    pub closed spec fn buffered(&self) -> Map<i64, i64> {
        self.memtable@
    }

    /// The number of records of the write buffer.
    pub closed spec fn buffered_count(&self) -> u32 {
        self.memtable.spec_size()
    }

    /// The number of records at which the write buffer is flushed.
    pub closed spec fn flush_at(&self) -> u32 {
        self.memtable_size
    }

    /// The number of runs written so far.
    pub closed spec fn runs_written(&self) -> u32 {
        self.sst_count
    }

    /// The files of the store.
    pub closed spec fn files(&self) -> Disk {
        self.disk
    }

    /// The storage backend.
    pub closed spec fn backend(&self) -> Backend {
        self.storage
    }

    /// Whether the files of the store are to be removed on drop.
    pub closed spec fn spec_cleanup(&self) -> bool {
        self.cleanup
    }

    /// The backend is in a state in which it can be used.
    pub open spec fn wf(&self) -> bool {
        self.backend().ready()
    }

    /// The backend is in step with the files.
    pub open spec fn in_step(&self) -> bool {
        self.backend().in_step(&self.files())
    }

    /// The files are what the flushes of this store made of them, and the
    /// pages that the backend has cached are those of the files.
    pub open spec fn sound(&self) -> bool {
        self.backend().sound(&self.files(), self.runs_written() as nat)
    }

    /// The records that the backend holds: under each key its newest value.
    pub open spec fn stored(&self) -> Map<i64, i64> {
        self.backend().contents(&self.files(), self.runs_written() as nat)
    }

    /// A flush of the records of `map` can be read back by the backend of
    /// this store. The merge tree moves records from page to page as it
    /// merges, so that it must not hold the padding record at all; for the
    /// other backends the record must not end a page of the flush.
    pub open spec fn keeps(&self, map: Map<i64, i64>) -> bool {
        if self.backend().kind() == StorageType::LSMTree {
            without_padding(map)
        } else {
            readable_back(map)
        }
    }

    /// What a lookup of `key` returns: the value in the write buffer, else
    /// that of the backend, and nothing where that value marks a deletion.
    pub open spec fn value_of(&self, key: i64) -> Option<i64> {
        visible(
            if self.buffered().contains_key(key) {
                Some(self.buffered()[key])
            } else {
                self.backend().value_on(&self.files(), key)
            },
        )
    }

    /// What a scan for the keys from `start` to `end` gathers, deleted keys
    /// included.
    pub open spec fn gathered(&self, start: i64, end: i64) -> Map<i64, i64> {
        self.backend().scan_on(
            &self.files(),
            start,
            end,
            merged(Map::empty(), range_of(self.buffered(), start, end)),
        )
    }

    /// The number of records of the write buffer once it has taken a record
    /// with the key `key`.
    pub open spec fn count_with(&self, key: i64) -> int {
        if self.buffered().contains_key(key) {
            self.buffered_count() as int
        } else {
            self.buffered_count() + 1
        }
    }

    /// Whether a record with the key `key` fills the write buffer, so that
    /// it is flushed.
    pub open spec fn fills(&self, key: i64) -> bool {
        self.count_with(key) >= self.flush_at()
    }

    /// The machine's sizes leave room for the write buffer to take one more
    /// record and to be flushed.
    pub open spec fn has_room(&self) -> bool {
        &&& self.buffered_count() < u32::MAX
        &&& self.runs_written() < u32::MAX
        &&& self.backend().can_flush(self.buffered_count() as nat + 1)
        &&& self.backend().can_flush(self.buffered_count() as nat)
    }

    /// Opens the database `name` on the files of `disk`, with the settings
    /// of `config`.
    pub fn open(name: String, config: KVConfig, disk: Disk) -> (client: Self)
        requires
            config.spec_storage_type() == StorageType::LSMTree ==> config.spec_memtable_size() > 0,
        ensures
            client.wf(),
            client.spec_name() == name@,
            client.buffered() == Map::<i64, i64>::empty(),
            client.buffered_count() == 0,
            client.flush_at() == config.spec_memtable_size(),
            client.files() == disk,
            client.spec_cleanup() == config.spec_cleanup(),
            client.backend().kind() == config.spec_storage_type(),
            client.backend().spec_name() == name@,
            client.backend().flush_count() == 0,
            client.runs_written() == (disk.count_under(db_prefix_text(name@)) as u32),
            config.spec_storage_type() != StorageType::LSMTree && disk.count_under(
                db_prefix_text(name@),
            ) == 0 ==> client.sound() && client@ == Map::<i64, i64>::empty(),
            config.spec_storage_type() == StorageType::AppendOnlyLog && disk.count_under(
                db_prefix_text(name@),
            ) <= u32::MAX && crate::sst::dir_ok(
                &disk,
                name@,
                disk.count_under(db_prefix_text(name@)),
            ) && crate::sst::runs_built(disk@, name@, disk.count_under(db_prefix_text(name@)))
                ==> client.sound() && client@ == crate::sst::stored(
                disk@,
                name@,
                disk.count_under(db_prefix_text(name@)),
            ),
            config.spec_storage_type() == StorageType::BTree && disk.count_under(
                db_prefix_text(name@),
            ) <= u32::MAX && crate::sst::dir_ok(
                &disk,
                name@,
                disk.count_under(db_prefix_text(name@)),
            ) && crate::storage::btree::trees_built(
                disk@,
                name@,
                disk.count_under(db_prefix_text(name@)),
            ) ==> client.sound() && client@ == crate::storage::btree::stored_trees(
                disk@,
                name@,
                disk.count_under(db_prefix_text(name@)),
            ),
            config.spec_storage_type() == StorageType::LSMTree && (forall|l: nat, r: nat|
                !#[trigger] disk@.contains_key(leaf_path_text(name@, l, r))) && (forall|
                l: nat,
                r: nat,
            |
                !#[trigger] disk@.contains_key(internal_path_text(name@, l, r)))
                ==> client.sound() && client@ == Map::<i64, i64>::empty(),
    {
        let prefix: String = db_prefix(name.as_str());
        let count: usize = disk.count_prefix(prefix.as_str());
        proof {
            if count == 0 {
                lemma_none_counted(disk.names(), db_prefix_text(name@), disk.names().len());
            }
        }
        let sst_count: u32 = #[verifier::truncate]
        (count as u32);
        let storage: Backend = match config.storage_type {
            StorageType::AppendOnlyLog => Backend::Log(AppendOnlyLog::new(name.clone())),
            StorageType::BTree => Backend::Tree(BTree::new(name.clone(), config.bufferpool_size)),
            StorageType::LSMTree => Backend::Lsm(
                LSMTree::new(name.clone(), config.bufferpool_size, config.memtable_size),
            ),
        };
        let client = Self {
            name,
            memtable: AVLTree::new(),
            memtable_size: config.memtable_size,
            sst_count,
            storage,
            cleanup: config.cleanup,
            disk,
        };
        proof {
            if config.spec_storage_type() != StorageType::LSMTree && count == 0 {
                assert(client.stored() =~= Map::<i64, i64>::empty());
                assert(client@ =~= Map::<i64, i64>::empty());
            }
            if config.spec_storage_type() != StorageType::LSMTree && count <= u32::MAX {
                assert(client@ =~= client.stored());
            }
            if let Backend::Lsm(lsm) = &client.storage {
                if (forall|l: nat, r: nat|
                    !#[trigger] client.disk@.contains_key(leaf_path_text(name@, l, r))) && (forall|
                    l: nat,
                    r: nat,
                |
                    !#[trigger] client.disk@.contains_key(internal_path_text(name@, l, r))) {
                    lsm.lemma_new_sound(&client.disk);
                    assert(client@ =~= Map::<i64, i64>::empty());
                }
            }
        }
        client
    }

    /// Writes the write buffer as a new run and empties it.
    fn flush(&mut self)
        requires
            old(self).wf(),
            old(self).runs_written() < u32::MAX,
            old(self).backend().can_flush(old(self).buffered_count() as nat),
        ensures
            final(self).wf(),
            final(self).spec_name() == old(self).spec_name(),
            final(self).flush_at() == old(self).flush_at(),
            final(self).spec_cleanup() == old(self).spec_cleanup(),
            final(self).backend().kind() == old(self).backend().kind(),
            final(self).backend().spec_name() == old(self).backend().spec_name(),
            final(self).backend().flush_count() == old(self).backend().flush_count() + old(
                self,
            ).backend().counts(old(self).buffered_count() as nat),
            final(self).buffered() == Map::<i64, i64>::empty(),
            final(self).buffered_count() == 0,
            final(self).runs_written() == old(self).runs_written() + 1,
            old(self).sound() && old(self).keeps(old(self).buffered()) ==> final(self).sound()
                && final(self)@ == old(self)@,
    {
        let output_lst: Vec<(i64, i64)> = self.memtable.scan_all();
        proof {
            if old(self).keeps(old(self).buffered()) && old(self).backend().kind()
                == StorageType::LSMTree {
                lemma_without_padding(old(self).buffered(), output_lst@);
            }
        }
        self.storage.flush(&mut self.disk, self.sst_count, output_lst);
        self.sst_count = self.sst_count + 1;
        self.memtable = AVLTree::new();
        proof {
            if old(self).sound() && old(self).keeps(old(self).buffered()) {
                assert(self@ =~= old(self)@);
            }
        }
    }

    /// Puts `value` under `key`. The write buffer is flushed once it holds
    /// as many records as the settings name.
    pub fn put(&mut self, key: i64, value: i64)
        requires
            old(self).wf(),
            old(self).has_room(),
        ensures
            final(self).wf(),
            final(self).spec_name() == old(self).spec_name(),
            final(self).flush_at() == old(self).flush_at(),
            final(self).spec_cleanup() == old(self).spec_cleanup(),
            final(self).backend().kind() == old(self).backend().kind(),
            !old(self).fills(key) ==> {
                &&& final(self).buffered() == old(self).buffered().insert(key, value)
                &&& final(self).buffered_count() == old(self).count_with(key)
                &&& final(self).files() == old(self).files()
                &&& final(self).backend() == old(self).backend()
                &&& final(self).runs_written() == old(self).runs_written()
            },
            old(self).fills(key) ==> {
                &&& final(self).buffered() == Map::<i64, i64>::empty()
                &&& final(self).buffered_count() == 0
                &&& final(self).runs_written() == old(self).runs_written() + 1
                &&& final(self).backend().flush_count() == old(self).backend().flush_count()
                    + old(self).backend().counts(1)
            },
            final(self).backend().spec_name() == old(self).backend().spec_name(),
            old(self).sound() && (old(self).fills(key) ==> old(self).keeps(
                old(self).buffered().insert(key, value),
            )) ==> final(self).sound() && final(self)@ == old(self)@.insert(key, value),
    {
        self.memtable.put(key, value);
        proof {
            assert(self@ =~= old(self)@.insert(key, value));
        }
        if self.memtable.size() >= self.memtable_size {
            proof {
                assert(self.buffered().contains_key(key));
                assert(self.buffered_count() > 0);
            }
            self.flush();
        }
    }

    /// The value under `key`; nothing where the key is not there or was
    /// deleted.
    pub fn get(&mut self, key: i64) -> (value: Option<i64>)
        requires
            old(self).wf(),
        ensures
            final(self).wf(),
            final(self).spec_name() == old(self).spec_name(),
            final(self).buffered() == old(self).buffered(),
            final(self).buffered_count() == old(self).buffered_count(),
            final(self).flush_at() == old(self).flush_at(),
            final(self).runs_written() == old(self).runs_written(),
            final(self).files() == old(self).files(),
            final(self).backend().kind() == old(self).backend().kind(),
            final(self).backend().spec_name() == old(self).backend().spec_name(),
            final(self).backend().flush_count() == old(self).backend().flush_count(),
            old(self).buffered().contains_key(key) ==> value == old(self).value_of(key),
            old(self).in_step() ==> final(self).in_step() && value == old(self).value_of(key),
            old(self).sound() ==> final(self).sound() && final(self)@ == old(self)@ && value
                == found_in(old(self)@, key),
    {
        let held: Option<i64> = self.memtable.get(key);
        let result: Option<i64> = match held {
            Some(value) => Some(value),
            None => self.storage.get(&self.disk, key),
        };
        proof {
            if old(self).sound() {
                assert(old(self).backend().sound(
                    &old(self).files(),
                    old(self).runs_written() as nat,
                ));
                assert(self@ =~= old(self)@);
            }
        }
        match result {
            Some(value) => {
                if value == TOMBSTONE {
                    None
                } else {
                    Some(value)
                }
            },
            None => None,
        }
    }

    /// The records whose keys lie from `start` to `end`, both included, in
    /// no particular order: each key once with its newest value, keys that
    /// were deleted left out. Nothing where `start` exceeds `end`.
    pub fn scan(&mut self, start: i64, end: i64) -> (records: Vec<(i64, i64)>)
        requires
            old(self).wf(),
        ensures
            final(self).wf(),
            final(self).spec_name() == old(self).spec_name(),
            final(self).buffered() == old(self).buffered(),
            final(self).buffered_count() == old(self).buffered_count(),
            final(self).flush_at() == old(self).flush_at(),
            final(self).runs_written() == old(self).runs_written(),
            final(self).files() == old(self).files(),
            final(self).backend().kind() == old(self).backend().kind(),
            final(self).backend().spec_name() == old(self).backend().spec_name(),
            final(self).backend().flush_count() == old(self).backend().flush_count(),
            start > end ==> records@.len() == 0,
            forall|i: int, j: int| 0 <= i < j < records@.len() ==> records@[i].0 != records@[j].0,
            start <= end && old(self).in_step() ==> final(self).in_step() && forall|k: i64, v: i64|
                records@.contains((k, v)) <==> (old(self).gathered(start, end).contains_key(k)
                    && old(self).gathered(start, end)[k] == v && v != TOMBSTONE),
            old(self).sound() ==> final(self).sound() && final(self)@ == old(self)@,
            old(self).sound() ==> forall|k: i64, v: i64|
                records@.contains((k, v)) <==> (start <= k <= end && found_in(old(self)@, k)
                    == Some(v)),
    {
        if start > end {
            proof {
                assert(self@ =~= old(self)@);
            }
            return Vec::new();
        }
        let mut kv_hash: HashMap<i64, i64> = HashMap::new();
        self.memtable.scan(start, end, &mut kv_hash);
        let ghost first = kv_hash@;
        self.storage.scan(&self.disk, start, end, &mut kv_hash);
        proof {
            if old(self).sound() {
                assert(old(self).backend().sound(
                    &old(self).files(),
                    old(self).runs_written() as nat,
                ));
                assert(self@ =~= old(self)@);
                assert(kv_hash@ == old(self).gathered(start, end));
                old(self).backend().lemma_scan_all(
                    &old(self).files(),
                    old(self).runs_written() as nat,
                    start,
                    end,
                    first,
                );
                assert(first =~= range_of(old(self).buffered(), start, end));
                assert(kv_hash@ =~= range_of(old(self)@, start, end));
            }
        }
        live_entries(&kv_hash)
    }

    /// Flushes the write buffer unless it is empty.
    pub fn close(&mut self)
        requires
            old(self).wf(),
            old(self).runs_written() < u32::MAX,
            old(self).backend().can_flush(old(self).buffered_count() as nat),
        ensures
            final(self).wf(),
            final(self).spec_name() == old(self).spec_name(),
            final(self).flush_at() == old(self).flush_at(),
            final(self).spec_cleanup() == old(self).spec_cleanup(),
            final(self).buffered() == Map::<i64, i64>::empty(),
            final(self).buffered_count() == 0,
            final(self).runs_written() == old(self).runs_written() + (if old(
                self,
            ).buffered_count() > 0 {
                1int
            } else {
                0int
            }),
            old(self).buffered_count() == 0 ==> final(self).files() == old(self).files()
                && final(self).backend() == old(self).backend(),
            final(self).backend().kind() == old(self).backend().kind(),
            final(self).backend().spec_name() == old(self).backend().spec_name(),
            final(self).backend().flush_count() == old(self).backend().flush_count() + old(
                self,
            ).backend().counts(old(self).buffered_count() as nat),
            old(self).sound() && old(self).keeps(old(self).buffered()) ==> final(self).sound()
                && final(self)@ == old(self)@,
    {
        if self.memtable.size() > 0 {
            self.flush();
        }
    }

    /// Deletes `key`: the write buffer takes the tombstone under it.
    pub fn delete(&mut self, key: i64)
        requires
            old(self).wf(),
            old(self).buffered().contains_key(key) || old(self).buffered_count() < u32::MAX,
        ensures
            final(self).wf(),
            final(self).spec_name() == old(self).spec_name(),
            final(self).buffered() == old(self).buffered().insert(key, TOMBSTONE),
            final(self).flush_at() == old(self).flush_at(),
            final(self).runs_written() == old(self).runs_written(),
            final(self).files() == old(self).files(),
            final(self).backend() == old(self).backend(),
            final(self).sound() == old(self).sound(),
            final(self)@ == old(self)@.insert(key, TOMBSTONE),
    {
        self.memtable.put(key, TOMBSTONE);
        proof {
            assert(self@ =~= old(self)@.insert(key, TOMBSTONE));
        }
    }

    /// Puts `value` under `key` in the write buffer, which is not flushed.
    pub fn update(&mut self, key: i64, value: i64)
        requires
            old(self).wf(),
            old(self).buffered().contains_key(key) || old(self).buffered_count() < u32::MAX,
        ensures
            final(self).wf(),
            final(self).spec_name() == old(self).spec_name(),
            final(self).buffered() == old(self).buffered().insert(key, value),
            final(self).flush_at() == old(self).flush_at(),
            final(self).runs_written() == old(self).runs_written(),
            final(self).files() == old(self).files(),
            final(self).backend() == old(self).backend(),
            final(self).sound() == old(self).sound(),
            final(self)@ == old(self)@.insert(key, value),
    {
        self.memtable.put(key, value);
        proof {
            assert(self@ =~= old(self)@.insert(key, value));
        }
    }

    /// Whether the machine's sizes leave room for a call of `put`.
    pub fn can_put(&self) -> (can: bool)
        ensures
            can == self.has_room(),
    {
        let count: u32 = self.memtable.size();
        count < u32::MAX && self.sst_count < u32::MAX && self.storage.can_take(count as u64 + 1)
            && self.storage.can_take(count as u64)
    }

    /// Whether the machine's sizes leave room for a call of `close`.
    pub fn can_close(&self) -> (can: bool)
        ensures
            can == (self.runs_written() < u32::MAX && self.backend().can_flush(
                self.buffered_count() as nat,
            )),
    {
        self.sst_count < u32::MAX && self.storage.can_take(self.memtable.size() as u64)
    }

    /// Whether the write buffer can take a record under `key`.
    pub fn can_buffer(&self, key: i64) -> (can: bool)
        ensures
            can == (self.buffered().contains_key(key) || self.buffered_count() < u32::MAX),
    {
        self.memtable.size() < u32::MAX || self.memtable.get(key).is_some()
    }

    /// The files of the store.
    pub fn disk(&self) -> (disk: &Disk)
        ensures
            *disk == self.files(),
    {
        &self.disk
    }

    /// Whether the files of the store are to be removed on drop.
    pub fn wants_cleanup(&self) -> (cleanup: bool)
        ensures
            cleanup == self.spec_cleanup(),
    {
        self.cleanup
    }

    /// The number of records of the write buffer.
    pub fn buffered_len(&self) -> (count: u32)
        ensures
            count == self.buffered_count(),
    {
        self.memtable.size()
    }
}

} // verus!
