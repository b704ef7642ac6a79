//! The runs of a merge tree as files: what it means for the two files of a
//! run to hold given records, and what stays of that when other files
//! change.

use crate::page::{chunk, chunks, padding_record, page_count, storable};
use crate::path::{internal_path_text, leaf_path_text, lemma_lsm_paths};
use crate::records::{entries_map, keys_ascend};
use crate::sst::{file_run, lemma_chunk_at, run_pages};
use crate::storage::btree::pages_storable;
use crate::storage::levels::{lemma_above, level_present, level_run, low_zero};
use crate::storage::merge::{flat, lemma_flat_chunks};
use crate::storage::part3btree::{index_pages, lemma_index_file, with_index};
use vstd::prelude::*;

verus! {

/// None of the records is the padding record.
pub open spec fn clean(records: Seq<(i64, i64)>) -> bool {
    forall|i: int| 0 <= i < records.len() ==> #[trigger] records[i] != padding_record()
}

/// Records without the padding record can be read back as they are
/// written.
pub proof fn lemma_clean(records: Seq<(i64, i64)>)
    requires
        clean(records),
    ensures
        storable(records),
        pages_storable(chunks(records)),
{
    assert forall|p: int| 0 <= p < page_count(records.len()) implies (#[trigger] chunk(
        records,
        p,
    )).last() != padding_record() by {
        lemma_chunk_at(records, p, 0);
        lemma_chunk_at(records, p, chunk(records, p).len() - 1);
    }
    assert forall|p: int| 0 <= p < chunks(records).len() implies 1 <= (#[trigger] chunks(
        records,
    )[p]).len() <= 256 && chunks(records)[p].last() != padding_record() by {
        lemma_chunk_at(records, p, 0);
        assert(chunk(records, p).last() != padding_record());
    }
}

/// The two files of the run `run` at level `level` hold the records
/// `records`: the leaf file their pages, the index file the index over
/// these pages.
pub open spec fn run_files_ok(
    disk: Map<Seq<char>, Seq<u8>>,
    db: Seq<char>,
    level: nat,
    run: nat,
    records: Seq<(i64, i64)>,
) -> bool {
    &&& keys_ascend(records)
    &&& clean(records)
    &&& 2 * records.len() + 2 <= i64::MAX
    &&& disk.contains_key(leaf_path_text(db, level, run))
    &&& file_run(disk, leaf_path_text(db, level, run)) == chunks(records)
    &&& file_run(disk, internal_path_text(db, level, run)) == index_pages(chunks(records))
}

/// The records of the run `run` at level `level`, as its leaf file holds
/// them.
pub open spec fn run_records(
    disk: Map<Seq<char>, Seq<u8>>,
    db: Seq<char>,
    level: nat,
    run: nat,
) -> Seq<(i64, i64)> {
    flat(file_run(disk, leaf_path_text(db, level, run)))
}

/// The two files of the run hold the records that its leaf file holds, and
/// these are sorted and without the padding record.
pub open spec fn run_ok(disk: Map<Seq<char>, Seq<u8>>, db: Seq<char>, level: nat, run: nat) -> bool {
    run_files_ok(disk, db, level, run, run_records(disk, db, level, run))
}

/// A run whose files hold given records is a run of these records.
pub proof fn lemma_run_records(
    disk: Map<Seq<char>, Seq<u8>>,
    db: Seq<char>,
    level: nat,
    run: nat,
    records: Seq<(i64, i64)>,
)
    requires
        run_files_ok(disk, db, level, run, records),
    ensures
        run_records(disk, db, level, run) == records,
        run_ok(disk, db, level, run),
{
    lemma_flat_chunks(records);
}

/// The file at `path` is the same on both disks: there on both or on
/// neither, with the same bytes.
pub open spec fn same_file(
    one: Map<Seq<char>, Seq<u8>>,
    other: Map<Seq<char>, Seq<u8>>,
    path: Seq<char>,
) -> bool {
    one.contains_key(path) == other.contains_key(path) && (one.contains_key(path) ==> one[path]
        == other[path])
}

/// A file that is the same on two disks has the same pages on both.
pub proof fn lemma_same_file_run(
    one: Map<Seq<char>, Seq<u8>>,
    other: Map<Seq<char>, Seq<u8>>,
    path: Seq<char>,
)
    requires
        same_file(one, other, path),
    ensures
        file_run(one, path) == file_run(other, path),
{
}

/// A run stays what it is where its two files stay the same.
pub proof fn lemma_run_frame(
    one: Map<Seq<char>, Seq<u8>>,
    other: Map<Seq<char>, Seq<u8>>,
    db: Seq<char>,
    level: nat,
    run: nat,
)
    requires
        same_file(one, other, leaf_path_text(db, level, run)),
        same_file(one, other, internal_path_text(db, level, run)),
    ensures
        run_records(other, db, level, run) == run_records(one, db, level, run),
        run_ok(other, db, level, run) == run_ok(one, db, level, run),
        forall|records: Seq<(i64, i64)>|
            run_files_ok(one, db, level, run, records) == #[trigger] run_files_ok(
                other,
                db,
                level,
                run,
                records,
            ),
{
    lemma_same_file_run(one, other, leaf_path_text(db, level, run));
    lemma_same_file_run(one, other, internal_path_text(db, level, run));
}

/// What writing the two files of a new run leaves on the disk: a run of
/// the records, and every other file as it was.
pub proof fn lemma_new_run(
    start: Map<Seq<char>, Seq<u8>>,
    with_leaf: Map<Seq<char>, Seq<u8>>,
    done: Map<Seq<char>, Seq<u8>>,
    db: Seq<char>,
    level: nat,
    run: nat,
    records: Seq<(i64, i64)>,
    bytes: Seq<u8>,
)
    requires
        !start.contains_key(leaf_path_text(db, level, run)),
        !start.contains_key(internal_path_text(db, level, run)),
        with_leaf == start.insert(leaf_path_text(db, level, run), bytes),
        run_pages(bytes, (bytes.len() / 4096) as nat) == chunks(records),
        done == with_index(
            with_leaf,
            internal_path_text(db, level, run),
            index_pages(file_run(with_leaf, leaf_path_text(db, level, run))),
        ),
        keys_ascend(records),
        clean(records),
        2 * records.len() + 2 <= i64::MAX,
    ensures
        run_files_ok(done, db, level, run, records),
        forall|path: Seq<char>|
            path != leaf_path_text(db, level, run) && path != internal_path_text(db, level, run)
                ==> #[trigger] same_file(start, done, path),
{
    let leaf = leaf_path_text(db, level, run);
    let index = internal_path_text(db, level, run);
    lemma_lsm_paths(db, level, run, level, run);
    assert(file_run(with_leaf, leaf) =~= chunks(records));
    lemma_index_file(with_leaf, index, chunks(records));
    assert(same_file(with_leaf, done, leaf));
    lemma_same_file_run(with_leaf, done, leaf);
    assert forall|path: Seq<char>| path != leaf && path != index implies #[trigger] same_file(
        start,
        done,
        path,
    ) by {}
}

/// The files in which the cache may hold pages while a flush is at work:
/// those of the runs up to number `done`, and those of run `done + 1` at
/// the levels up to `level`.
pub open spec fn cache_names(db: Seq<char>, done: nat, level: nat) -> Set<Seq<char>> {
    Set::new(
        |n: Seq<char>|
            (exists|l: nat, r: nat|
                (r <= done || (r == done + 1 && l <= level)) && n == #[trigger] leaf_path_text(
                    db,
                    l,
                    r,
                )) || (exists|l: nat, r: nat|
                (r <= done || (r == done + 1 && l <= level)) && n == #[trigger] internal_path_text(
                    db,
                    l,
                    r,
                )),
    )
}

/// The records of the runs from level `level` up after `tree_size` flushes,
/// as a map: under each key the value of the lowest level that holds it,
/// which is the newest.
pub open spec fn records_from(
    disk: Map<Seq<char>, Seq<u8>>,
    db: Seq<char>,
    tree_size: u32,
    level: nat,
) -> Map<i64, i64>
    decreases 33 - level,
{
    if level < 1 || level > 32 {
        Map::empty()
    } else if level_present(tree_size, level) {
        records_from(disk, db, tree_size, level + 1).union_prefer_right(
            entries_map(run_records(disk, db, level, level_run(tree_size, level) as nat)),
        )
    } else {
        records_from(disk, db, tree_size, level + 1)
    }
}


/// The map of the records of the runs from a level up depends on the leaf
/// files of these runs only.
pub proof fn lemma_records_frame(
    one: Map<Seq<char>, Seq<u8>>,
    other: Map<Seq<char>, Seq<u8>>,
    db: Seq<char>,
    tree_size: u32,
    level: nat,
)
    requires
        forall|l: nat|
            l >= level && #[trigger] level_present(tree_size, l) ==> run_records(
                one,
                db,
                l,
                level_run(tree_size, l) as nat,
            ) == run_records(other, db, l, level_run(tree_size, l) as nat),
    ensures
        records_from(one, db, tree_size, level) == records_from(other, db, tree_size, level),
    decreases 33 - level,
{
    if 1 <= level <= 32 {
        lemma_records_frame(one, other, db, tree_size, level + 1);
        if level_present(tree_size, level) {
            assert(run_records(one, db, level, level_run(tree_size, level) as nat) == run_records(
                other,
                db,
                level,
                level_run(tree_size, level) as nat,
            ));
        }
    }
}

/// The runs from level `level` up after `tree_size` flushes hold the same
/// records on both disks.
pub open spec fn same_runs(
    one: Map<Seq<char>, Seq<u8>>,
    other: Map<Seq<char>, Seq<u8>>,
    db: Seq<char>,
    tree_size: u32,
    level: nat,
) -> bool {
    forall|l: nat|
        l >= level && #[trigger] level_present(tree_size, l) ==> run_records(
            one,
            db,
            l,
            level_run(tree_size, l) as nat,
        ) == run_records(other, db, l, level_run(tree_size, l) as nat)
}

/// The two flush counts agree on the levels from `level` up: on which of
/// them hold a run, and on the numbers of these runs.
pub open spec fn same_levels(one: u32, other: u32, level: nat) -> bool {
    forall|l: nat|
        l >= level && 1 <= l <= 32 ==> (#[trigger] level_present(one, l)) == level_present(
            other,
            l,
        ) && level_run(one, l) == level_run(other, l)
}

/// Where a flush settles at level `level`, the flush counts before and
/// after it agree on the levels above.
pub proof fn lemma_same_levels_above(before: u32, tree_size: u32, level: nat)
    requires
        1 <= level <= 32,
        before < u32::MAX,
        tree_size == before + 1,
        low_zero(tree_size, (level - 1) as nat),
        level_present(tree_size, level),
    ensures
        same_levels(tree_size, before, level + 1),
{
    assert forall|l: nat| l >= level + 1 && 1 <= l <= 32 implies (#[trigger] level_present(
        tree_size,
        l,
    )) == level_present(before, l) && level_run(tree_size, l) == level_run(before, l) by {
        lemma_above(before, tree_size, level, l);
    }
}

/// The map of the records of the runs from a level up is the same for two
/// flush counts that agree on the levels from there up.
pub proof fn lemma_records_same_levels(
    disk: Map<Seq<char>, Seq<u8>>,
    db: Seq<char>,
    one: u32,
    other: u32,
    level: nat,
)
    requires
        same_levels(one, other, level),
    ensures
        records_from(disk, db, one, level) == records_from(disk, db, other, level),
    decreases 33 - level,
{
    if 1 <= level <= 32 {
        assert(same_levels(one, other, level + 1));
        lemma_records_same_levels(disk, db, one, other, level + 1);
        assert(level_present(one, level) == level_present(other, level));
    }
}

/// The map of the records of the runs from level `from` up is that from
/// level `to` up, where no level between the two holds a run.
pub proof fn lemma_records_skip(
    disk: Map<Seq<char>, Seq<u8>>,
    db: Seq<char>,
    tree_size: u32,
    from: nat,
    to: nat,
)
    requires
        1 <= from <= to <= 33,
        forall|l: nat| from <= l < to ==> !#[trigger] level_present(tree_size, l),
    ensures
        records_from(disk, db, tree_size, from) == records_from(disk, db, tree_size, to),
    decreases to - from,
{
    if from < to {
        assert(!level_present(tree_size, from));
        lemma_records_skip(disk, db, tree_size, from + 1, to);
    }
}

} // verus!
