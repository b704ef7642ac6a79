//! What a scan of sorted records gathers: the walk through the records as
//! a fold, and the fold as a map.

use crate::page::{chunk, chunks, page_count};
use crate::path::sst_path_text;
use crate::records::{
    entries_map, has_key, index_of_key, keys_ascend, lemma_entry_at, merged, range_of,
};
use crate::search::{count_below, lemma_count_below, lemma_count_below_is};
use crate::sst::{
    absorb, file_run, lemma_chunk_at, lemma_chunks_ascend, lemma_chunks_map, pages_below, run_of,
    runs_built, scan_runs, scan_pages, scan_run, stored,
};
use crate::storage::btree::{
    leaf_mins, lemma_internal_shape, lemma_leaf_mins_ascend, lemma_tree_leaf_is_descent,
    looks_internal, scan_trees, stored_trees, tree_leaf, tree_of, tree_scan, trees_built,
};
use crate::storage::layout::{
    covering, internal_pages, lemma_covering, lemma_descent_finds_leaf, lemma_descent_prefix,
    lemma_internal_pages_len,
};
use crate::storage::part3btree::{index_pages, leaf_for, lemma_page_mins_of_chunks, run_scan};
use vstd::prelude::*;

verus! {

/// What a walk through the records from record `from` on leaves in `map`:
/// each record is added unless `map` holds its key already, until a key
/// exceeds `end` or the records are exhausted.
pub open spec fn scan_seq(records: Seq<(i64, i64)>, from: int, end: i64, map: Map<i64, i64>) -> Map<
    i64,
    i64,
>
    decreases records.len() - from,
{
    if from < 0 || from >= records.len() {
        map
    } else if records[from].0 > end {
        map
    } else {
        scan_seq(records, from + 1, end, absorb(map, records[from]))
    }
}

/// A walk through the pages of a run is a walk through its records.
pub proof fn lemma_scan_chunks(records: Seq<(i64, i64)>, p: int, i: int, end: i64, map: Map<i64, i64>)
    requires
        0 <= p <= page_count(records.len()),
        0 <= i,
        p < page_count(records.len()) ==> i <= chunk(records, p).len(),
        p == page_count(records.len()) ==> i == 0,
    ensures
        scan_pages(chunks(records), p, i, end, map) == scan_seq(records, 256 * p + i, end, map),
    decreases page_count(records.len()) - p, 257 - i,
{
    let pages = chunks(records);
    if p < pages.len() {
        lemma_chunk_at(records, p, 0);
        if i >= pages[p].len() {
            lemma_scan_chunks(records, p + 1, 0, end, map);
            if p + 1 == pages.len() {
                assert(256 * p + i >= records.len());
            }
        } else {
            lemma_chunk_at(records, p, i);
            if pages[p][i].0 <= end {
                lemma_scan_chunks(records, p, i + 1, end, absorb(map, pages[p][i]));
            }
        }
    } else {
        assert(256 * p >= records.len());
    }
}

/// The records from `from` on whose keys are at most `end`, as a map.
pub open spec fn tail_range(records: Seq<(i64, i64)>, from: int, end: i64) -> Map<i64, i64> {
    Map::new(
        |k: i64|
            exists|i: int| from <= i < records.len() && (#[trigger] records[i]).0 == k && k <= end,
        |k: i64| entries_map(records)[k],
    )
}

/// A walk through sorted records from record `from` on adds the records
/// from there on whose keys are at most `end`.
pub proof fn lemma_scan_seq(records: Seq<(i64, i64)>, from: int, end: i64, map: Map<i64, i64>)
    requires
        keys_ascend(records),
        0 <= from <= records.len(),
    ensures
        scan_seq(records, from, end, map) == merged(map, tail_range(records, from, end)),
    decreases records.len() - from,
{
    let want = merged(map, tail_range(records, from, end));
    if from >= records.len() {
        assert(tail_range(records, from, end) =~= Map::<i64, i64>::empty());
        assert(want =~= map);
    } else if records[from].0 > end {
        assert forall|k: i64| !tail_range(records, from, end).contains_key(k) by {
            if tail_range(records, from, end).contains_key(k) {
                let i = choose|i: int|
                    from <= i < records.len() && (#[trigger] records[i]).0 == k && k <= end;
                if from < i {
                    assert(records[from].0 < records[i].0);
                }
            }
        }
        assert(tail_range(records, from, end) =~= Map::<i64, i64>::empty());
        assert(want =~= map);
    } else {
        let r = records[from];
        lemma_scan_seq(records, from + 1, end, absorb(map, r));
        lemma_entry_at(records, from);
        let rest = tail_range(records, from + 1, end);
        let all = tail_range(records, from, end);
        assert forall|k: i64| all.contains_key(k) == (k == r.0 || rest.contains_key(k)) by {
            if all.contains_key(k) {
                let i = choose|i: int|
                    from <= i < records.len() && (#[trigger] records[i]).0 == k && k <= end;
                if i > from {
                    assert(from + 1 <= i < records.len() && records[i].0 == k && k <= end);
                }
            }
            if rest.contains_key(k) {
                let i = choose|i: int|
                    from + 1 <= i < records.len() && (#[trigger] records[i]).0 == k && k <= end;
                assert(from <= i < records.len() && records[i].0 == k && k <= end);
            }
            if k == r.0 {
                assert(from <= from < records.len() && records[from].0 == k && k <= end);
            }
        }
        assert(merged(absorb(map, r), rest) =~= want);
    }
}

/// The records of a sorted run from the first one whose key is at least
/// `start` on, up to the key `end`, are the records of the run whose keys
/// lie from `start` to `end`.
pub proof fn lemma_tail_is_range(records: Seq<(i64, i64)>, start: i64, end: i64)
    requires
        keys_ascend(records),
    ensures
        tail_range(records, count_below(records, start) as int, end) == range_of(
            entries_map(records),
            start,
            end,
        ),
{
    lemma_count_below(records, start);
    let from = count_below(records, start) as int;
    let tail = tail_range(records, from, end);
    let want = range_of(entries_map(records), start, end);
    assert forall|k: i64| tail.contains_key(k) == want.contains_key(k) by {
        if tail.contains_key(k) {
            let i = choose|i: int|
                from <= i < records.len() && (#[trigger] records[i]).0 == k && k <= end;
            assert(records[i].0 >= start);
            assert(has_key(records, k));
        }
        if want.contains_key(k) {
            let i = index_of_key(records, k);
            assert(records[i].0 == k);
            if i < from {
                assert(records[i].0 < start);
            }
            assert(from <= i < records.len() && records[i].0 == k && k <= end);
        }
    }
    assert(tail =~= want);
}

/// A walk through a sorted run from the first record whose key is at least
/// `start` on adds the records of the run whose keys lie from `start` to
/// `end`.
pub proof fn lemma_scan_range(records: Seq<(i64, i64)>, start: i64, end: i64, map: Map<i64, i64>)
    requires
        keys_ascend(records),
    ensures
        scan_seq(records, count_below(records, start) as int, end, map) == merged(
            map,
            range_of(entries_map(records), start, end),
        ),
{
    lemma_count_below(records, start);
    lemma_scan_seq(records, count_below(records, start) as int, end, map);
    lemma_tail_is_range(records, start, end);
}

/// The part of a map with the keys of another before it: the ranges of
/// both, the one before the other.
pub proof fn lemma_range_of_union(older: Map<i64, i64>, newer: Map<i64, i64>, start: i64, end: i64)
    ensures
        range_of(older.union_prefer_right(newer), start, end) == range_of(
            older,
            start,
            end,
        ).union_prefer_right(range_of(newer, start, end)),
{
    assert(range_of(older.union_prefer_right(newer), start, end) =~= range_of(
        older,
        start,
        end,
    ).union_prefer_right(range_of(newer, start, end)));
}

/// What is gathered from a newer run and then from older ones is what is
/// gathered from all of them at once.
pub proof fn lemma_merged_twice(map: Map<i64, i64>, newer: Map<i64, i64>, older: Map<i64, i64>)
    ensures
        merged(merged(map, newer), older) == merged(map, older.union_prefer_right(newer)),
{
    assert(merged(merged(map, newer), older) =~= merged(map, older.union_prefer_right(newer)));
}


/// The place of the first record whose key is at least `start`, in the run
/// and on the page where it lies: the page is the one that the index names
/// for `start`, or the end of the page before it.
pub proof fn lemma_place_by_index(records: Seq<(i64, i64)>, start: i64)
    requires
        keys_ascend(records),
        records.len() > 0,
    ensures
        covering(leaf_mins(records), start) < page_count(records.len()),
        256 * covering(leaf_mins(records), start) + count_below(
            chunk(records, covering(leaf_mins(records), start) as int),
            start,
        ) == count_below(records, start),
        count_below(chunk(records, covering(leaf_mins(records), start) as int), start) <= chunk(
            records,
            covering(leaf_mins(records), start) as int,
        ).len(),
{
    let mins = leaf_mins(records);
    lemma_leaf_mins_ascend(records);
    lemma_covering(mins, start);
    let leaf = covering(mins, start) as int;
    let page = chunk(records, leaf);
    lemma_chunks_ascend(records);
    assert(chunks(records)[leaf] == page);
    lemma_count_below(page, start);
    let at = 256 * leaf + count_below(page, start);
    lemma_chunk_at(records, leaf, 0);
    assert forall|i: int| 0 <= i < at implies (#[trigger] records[i]).0 < start by {
        if i < 256 * leaf {
            assert(records[i].0 < records[256 * leaf].0);
            assert(mins[leaf] == records[256 * leaf].0);
        } else {
            lemma_chunk_at(records, leaf, i - 256 * leaf);
            assert(page[i - 256 * leaf].0 < start);
        }
    }
    assert forall|i: int| at <= i < records.len() implies (#[trigger] records[i]).0 >= start by {
        if i < 256 * leaf + page.len() {
            lemma_chunk_at(records, leaf, i - 256 * leaf);
            assert(page[i - 256 * leaf].0 >= start);
        } else {
            assert(leaf + 1 < mins.len());
            assert(mins[leaf + 1] > start);
            assert(mins[leaf + 1] == records[256 * (leaf + 1)].0);
            if 256 * (leaf + 1) < i {
                assert(records[256 * (leaf + 1)].0 < records[i].0);
            }
        }
    }
    lemma_count_below_is(records, start, at);
}

/// A scan of the pages of a sorted run, begun where the first key at least
/// `start` lies, adds the records of the run whose keys lie from `start`
/// to `end`.
pub proof fn lemma_scan_run(records: Seq<(i64, i64)>, start: i64, end: i64, map: Map<i64, i64>)
    requires
        keys_ascend(records),
        records.len() <= usize::MAX,
    ensures
        scan_run(chunks(records), start, end, map) == merged(
            map,
            range_of(entries_map(records), start, end),
        ),
{
    let pages = chunks(records);
    let want = merged(map, range_of(entries_map(records), start, end));
    lemma_chunks_ascend(records);
    if pages.len() == 0 {
        assert(range_of(entries_map(records), start, end) =~= Map::<i64, i64>::empty());
        assert(want =~= map);
    } else {
        lemma_chunk_at(records, 0, 0);
        crate::sst::lemma_pages_below(pages, start);
        let p = pages_below(pages, start) as int;
        lemma_scan_range(records, start, end, map);
        if start < pages[0].first().0 {
            assert forall|i: int| 0 <= i < records.len() implies (#[trigger] records[i]).0
                >= start by {
                if i > 0 {
                    assert(records[0].0 < records[i].0);
                }
            }
            lemma_count_below_is(records, start, 0);
            if pages[0].first().0 <= end {
                lemma_scan_chunks(records, 0, 0, end, map);
            } else {
                assert(records[0].0 > end);
                assert(scan_seq(records, 0, end, map) == map);
            }
        } else if p < pages.len() {
            let page = pages[p];
            lemma_count_below(page, start);
            let idx = count_below(page, start) as int;
            let at = 256 * p + idx;
            lemma_chunk_at(records, p, 0);
            assert(page.last().0 >= start);
            assert(idx < page.len()) by {
                if idx >= page.len() {
                    assert(page[page.len() - 1].0 < start);
                }
            }
            assert forall|i: int| 0 <= i < at implies (#[trigger] records[i]).0 < start by {
                if i < 256 * p {
                    let q = i / 256;
                    lemma_chunk_at(records, q, 0);
                    lemma_chunk_at(records, q, pages[q].len() - 1);
                    assert(pages[q].last().0 < start);
                    lemma_chunk_at(records, q, i - 256 * q);
                    if i - 256 * q < pages[q].len() - 1 {
                        assert(pages[q][i - 256 * q].0 < pages[q][pages[q].len() - 1].0);
                    }
                } else {
                    lemma_chunk_at(records, p, i - 256 * p);
                    assert(page[i - 256 * p].0 < start);
                }
            }
            assert forall|i: int| at <= i < records.len() implies (#[trigger] records[i]).0
                >= start by {
                lemma_chunk_at(records, p, idx);
                assert(page[idx].0 >= start);
                if at < i {
                    assert(records[at].0 < records[i].0);
                }
            }
            lemma_count_below_is(records, start, at);
            lemma_scan_chunks(records, p, idx, end, map);
        } else {
            assert forall|i: int| 0 <= i < records.len() implies (#[trigger] records[i]).0
                < start by {
                let q = i / 256;
                lemma_chunk_at(records, q, 0);
                lemma_chunk_at(records, q, pages[q].len() - 1);
                assert(pages[q].last().0 < start);
                lemma_chunk_at(records, q, i - 256 * q);
                if i - 256 * q < pages[q].len() - 1 {
                    assert(pages[q][i - 256 * q].0 < pages[q][pages[q].len() - 1].0);
                }
            }
            lemma_count_below_is(records, start, records.len() as int);
            assert(scan_seq(records, records.len() as int, end, map) == map);
        }
    }
}


/// A scan of a run through its index adds the records of the run whose
/// keys lie from `start` to `end`.
pub proof fn lemma_run_scan(records: Seq<(i64, i64)>, start: i64, end: i64, map: Map<i64, i64>)
    requires
        keys_ascend(records),
        2 * records.len() + 2 <= i64::MAX,
    ensures
        run_scan(index_pages(chunks(records)), chunks(records), start, end, map) == merged(
            map,
            range_of(entries_map(records), start, end),
        ),
{
    let leaves = chunks(records);
    let mins = leaf_mins(records);
    let want = merged(map, range_of(entries_map(records), start, end));
    lemma_page_mins_of_chunks(records);
    lemma_leaf_mins_ascend(records);
    lemma_internal_pages_len(mins);
    if records.len() == 0 {
        assert(range_of(entries_map(records), start, end) =~= Map::<i64, i64>::empty());
        assert(want =~= map);
    } else {
        lemma_descent_finds_leaf(mins, start);
        lemma_place_by_index(records, start);
        let leaf = covering(mins, start) as int;
        assert(leaf_for(index_pages(leaves), start) == leaf);
        assert(leaves[leaf] == chunk(records, leaf));
        lemma_scan_chunks(records, leaf, count_below(leaves[leaf], start) as int, end, map);
        lemma_scan_range(records, start, end, map);
    }
}

/// A walk through pages that begins on a page after the first `before`
/// ones is a walk through the pages without these.
pub proof fn lemma_scan_after(
    upper: Seq<Seq<(i64, i64)>>,
    leaves: Seq<Seq<(i64, i64)>>,
    p: int,
    i: int,
    end: i64,
    map: Map<i64, i64>,
)
    requires
        0 <= p <= leaves.len(),
        0 <= i,
    ensures
        scan_pages(upper + leaves, upper.len() + p, i, end, map) == scan_pages(
            leaves,
            p,
            i,
            end,
            map,
        ),
    decreases leaves.len() - p, (if p < leaves.len() {
            leaves[p].len() - i
        } else {
            0
        }),
{
    let pages = upper + leaves;
    if p < leaves.len() {
        assert(pages[upper.len() + p] == leaves[p]);
        if i >= leaves[p].len() {
            lemma_scan_after(upper, leaves, p + 1, 0, end, map);
        } else if leaves[p][i].0 <= end {
            lemma_scan_after(upper, leaves, p, i + 1, end, absorb(map, leaves[p][i]));
        }
    }
}

/// A scan of the search tree over a sorted run adds the records of the run
/// whose keys lie from `start` to `end`.
pub proof fn lemma_tree_scan(records: Seq<(i64, i64)>, start: i64, end: i64, map: Map<i64, i64>)
    requires
        keys_ascend(records),
        2 * records.len() + 2 <= i64::MAX,
    ensures
        tree_scan(internal_pages(leaf_mins(records)) + chunks(records), start, end, map) == merged(
            map,
            range_of(entries_map(records), start, end),
        ),
{
    let mins = leaf_mins(records);
    let upper = internal_pages(mins);
    let leaves = chunks(records);
    let pages = upper + leaves;
    let limit = upper.len() as int;
    let want = merged(map, range_of(entries_map(records), start, end));
    lemma_leaf_mins_ascend(records);
    lemma_internal_pages_len(mins);
    lemma_chunks_ascend(records);
    if records.len() == 0 {
        assert(pages.len() == 0);
        assert(range_of(entries_map(records), start, end) =~= Map::<i64, i64>::empty());
        assert(want =~= map);
    } else {
        lemma_descent_finds_leaf(mins, start);
        lemma_place_by_index(records, start);
        let at = covering(mins, start) as int;
        lemma_descent_prefix(pages, upper, limit, 0, start);
        assert forall|p: int| 0 <= p < limit implies looks_internal(#[trigger] pages[p]) by {
            assert(pages[p] == upper[p]);
            lemma_internal_shape(mins, p);
        }
        let leaf = leaves[at];
        assert(pages[limit + at] == leaf);
        if leaf.len() > 1 {
            assert(leaf[0].0 < leaf[1].0);
        }
        lemma_tree_leaf_is_descent(pages, limit, 0, start);
        assert(tree_leaf(pages, 0, start) == limit + at);
        lemma_scan_after(upper, leaves, at, count_below(leaf, start) as int, end, map);
        lemma_scan_chunks(records, at, count_below(leaf, start) as int, end, map);
        lemma_scan_range(records, start, end, map);
    }
}


/// A scan of all runs of a database gathers the records of the runs whose
/// keys lie from `start` to `end`, under each key the newest.
pub proof fn lemma_scan_all_runs(
    disk: Map<Seq<char>, Seq<u8>>,
    db: Seq<char>,
    count: nat,
    start: i64,
    end: i64,
    map: Map<i64, i64>,
)
    requires
        runs_built(disk, db, count),
    ensures
        scan_runs(disk, db, count, start, end, map) == merged(
            map,
            range_of(stored(disk, db, count), start, end),
        ),
    decreases count,
{
    if count == 0 {
        assert(range_of(stored(disk, db, count), start, end) =~= Map::<i64, i64>::empty());
        assert(merged(map, range_of(stored(disk, db, count), start, end)) =~= map);
    } else {
        let pages = file_run(disk, sst_path_text(db, (count - 1) as nat));
        let records = choose|records: Seq<(i64, i64)>| run_of(pages, records);
        lemma_scan_run(records, start, end, map);
        lemma_chunks_map(records);
        let newer = range_of(entries_map(records), start, end);
        let next = merged(map, newer);
        assert(runs_built(disk, db, (count - 1) as nat));
        lemma_scan_all_runs(disk, db, (count - 1) as nat, start, end, next);
        let older = stored(disk, db, (count - 1) as nat);
        lemma_merged_twice(map, newer, range_of(older, start, end));
        lemma_range_of_union(older, entries_map(records), start, end);
    }
}

/// A scan of all trees of a database gathers the records of the trees
/// whose keys lie from `start` to `end`, under each key the newest.
pub proof fn lemma_scan_all_trees(
    disk: Map<Seq<char>, Seq<u8>>,
    db: Seq<char>,
    count: nat,
    start: i64,
    end: i64,
    map: Map<i64, i64>,
)
    requires
        trees_built(disk, db, count),
    ensures
        scan_trees(disk, db, count, start, end, map) == merged(
            map,
            range_of(stored_trees(disk, db, count), start, end),
        ),
    decreases count,
{
    if count == 0 {
        assert(range_of(stored_trees(disk, db, count), start, end) =~= Map::<i64, i64>::empty());
        assert(merged(map, range_of(stored_trees(disk, db, count), start, end)) =~= map);
    } else {
        let pages = file_run(disk, sst_path_text(db, (count - 1) as nat));
        let records = choose|records: Seq<(i64, i64)>| tree_of(pages, records);
        lemma_tree_scan(records, start, end, map);
        crate::storage::btree::lemma_tree_map(records);
        let newer = range_of(entries_map(records), start, end);
        let next = merged(map, newer);
        assert(trees_built(disk, db, (count - 1) as nat));
        lemma_scan_all_trees(disk, db, (count - 1) as nat, start, end, next);
        let older = stored_trees(disk, db, (count - 1) as nat);
        lemma_merged_twice(map, newer, range_of(older, start, end));
        lemma_range_of_union(older, entries_map(records), start, end);
    }
}

} // verus!
