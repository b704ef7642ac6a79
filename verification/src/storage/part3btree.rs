//! Static search-tree runs in two files: the sorted leaf pages in one, the
//! pages of the tree's upper levels in the other.

use crate::buffer::{BufferPool, coherent, names_within};
use crate::disk::Disk;
use crate::page::{PAGE_SIZE, chunks, page_count};
use crate::records::keys_ascend;
use crate::search::{
    binary_search_array_start_index, binary_search_internal_se_key, count_below,
    keys_ascend_after_first, lemma_count_at_most, lemma_count_below, lookup,
};
use crate::sst::{appended, deserialize_page, file_run, run_pages, scan_pages, serialize_kv_to_file};
use crate::storage::btree::{
    images, leaf_mins, lemma_covering_leaf, lemma_images_pages, lemma_internal_shape,
    lemma_internal_storable, lemma_leaf_mins_ascend, lemma_node_size, lemma_tree_step,
    pages_to_read, readable, scan_b_tree_file,
};
use crate::storage::layout::{
    build_internal_pages, covering, descent, internal_pages, lemma_descent_finds_leaf,
    lemma_internal_pages_len, pages_view, pick_child,
};
use std::collections::HashMap;
use vstd::prelude::*;

verus! {

/// The first key of each page; 0 for a page without records.
pub open spec fn page_mins(pages: Seq<Seq<(i64, i64)>>) -> Seq<i64> {
    Seq::new(
        pages.len(),
        |j: int|
            if pages[j].len() > 0 {
                pages[j][0].0
            } else {
                0
            },
    )
}

/// The pages of the tree's upper levels over the leaf pages `leaves`.
pub open spec fn index_pages(leaves: Seq<Seq<(i64, i64)>>) -> Seq<Seq<(i64, i64)>> {
    internal_pages(page_mins(leaves))
}

/// The disk after the index file of a run was written: the pages of the
/// upper levels are appended to the file at `path`; where there are none,
/// nothing is written.
pub open spec fn with_index(
    disk: Map<Seq<char>, Seq<u8>>,
    path: Seq<char>,
    pages: Seq<Seq<(i64, i64)>>,
) -> Map<Seq<char>, Seq<u8>> {
    if pages.len() == 0 {
        disk
    } else {
        appended(disk, path, images(pages))
    }
}

/// Builds the index file of the run whose leaf pages are in the file at
/// `leaf_file_path`: the pages of the upper levels of a search tree over
/// those leaf pages, the root first, appended to the file at
/// `internal_file_path`.
pub fn part3_create_b_tree_internal_file(
    disk: &mut Disk,
    leaf_file_path: &str,
    internal_file_path: &str,
)
    ensures
        final(disk)@ == with_index(
            old(disk)@,
            internal_file_path@,
            index_pages(file_run(old(disk)@, leaf_file_path@)),
        ),
{
    let wanted: usize = disk.page_count(leaf_file_path);
    let total_pages: usize = pages_to_read(disk, leaf_file_path, wanted);
    let ghost leaves = file_run(disk@, leaf_file_path@);
    proof {
        if total_pages > 0 {
            assert(leaves =~= run_pages(disk@[leaf_file_path@], total_pages as nat));
        } else {
            assert(leaves.len() == 0);
        }
    }
    let mut mins: Vec<i64> = Vec::with_capacity(total_pages);
    let mut i: usize = 0;
    while i < total_pages
        invariant
            i <= total_pages,
            total_pages > 0 ==> readable(disk, leaf_file_path@, total_pages as nat),
            total_pages > 0 ==> leaves == run_pages(disk@[leaf_file_path@], total_pages as nat),
            mins@.len() == i,
            forall|j: int| 0 <= j < i ==> mins@[j] == page_mins(leaves)[j],
        decreases total_pages - i,
    {
        assert(i * 4096 + 4096 <= disk@[leaf_file_path@].len()) by (nonlinear_arith)
            requires
                i < total_pages,
                total_pages * 4096 <= disk@[leaf_file_path@].len(),
        ;
        let kv_arr: Vec<(i64, i64)> = deserialize_page(disk, leaf_file_path, i * PAGE_SIZE);
        assert(kv_arr@ == leaves[i as int]);
        let first: i64 = if kv_arr.len() > 0 {
            kv_arr[0].0
        } else {
            0
        };
        mins.push(first);
        i += 1;
    }
    assert(mins@ =~= page_mins(leaves));
    assert(total_pages * 4096 <= usize::MAX) by {
        if total_pages > 0 {
            assert(readable(disk, leaf_file_path@, total_pages as nat));
        }
    }
    let internal: Vec<Vec<(i64, i64)>> = build_internal_pages(mins);
    let ghost upper = index_pages(leaves);
    assert(internal@.len() == upper.len()) by {
        assert(pages_view(internal@).len() == internal@.len());
    }
    let mut k: usize = 0;
    while k < internal.len()
        invariant
            k <= internal@.len(),
            internal@.len() == upper.len(),
            pages_view(internal@) == upper,
            upper == internal_pages(page_mins(leaves)),
            k == 0 ==> disk@ == old(disk)@,
            k > 0 ==> disk@ == appended(
                old(disk)@,
                internal_file_path@,
                images(upper.take(k as int)),
            ),
        decreases internal@.len() - k,
    {
        proof {
            assert(pages_view(internal@)[k as int] == internal@[k as int]@);
            lemma_node_size(page_mins(leaves), k as int);
        }
        let ghost before = disk@;
        serialize_kv_to_file(disk, internal_file_path, &internal[k]);
        proof {
            lemma_tree_step(old(disk)@, before, disk@, internal_file_path@, upper, k as int);
        }
        k += 1;
    }
    proof {
        assert(upper.take(upper.len() as int) =~= upper);
    }
}

/// The pages of the index file are sorted from their second entry on and
/// none is empty; the leaf pages are sorted.
pub open spec fn run_shaped(index: Seq<Seq<(i64, i64)>>, leaves: Seq<Seq<(i64, i64)>>) -> bool {
    &&& forall|p: int|
        0 <= p < index.len() ==> (#[trigger] index[p]).len() > 0 && keys_ascend_after_first(
            index[p],
        )
    &&& forall|p: int| 0 <= p < leaves.len() ==> keys_ascend(#[trigger] leaves[p])
}

/// The leaf page at which the way down from the root of the index for the
/// key `x` ends, counted from the first leaf page.
pub open spec fn leaf_for(index: Seq<Seq<(i64, i64)>>, x: i64) -> int {
    descent(index, index.len() as int, 0, x) - index.len()
}

/// The value under `key` in the run: that on the leaf page at which the way
/// down through the index ends.
pub open spec fn run_search(
    index: Seq<Seq<(i64, i64)>>,
    leaves: Seq<Seq<(i64, i64)>>,
    key: i64,
) -> Option<i64> {
    let leaf = leaf_for(index, key);
    if 0 <= leaf < leaves.len() {
        lookup(leaves[leaf], key)
    } else {
        None
    }
}

/// What a scan of the run for the keys from `start` to `end` leaves in
/// `map`: the walk begins on the leaf page at which the way down for `start`
/// ends, at the first record whose key is at least `start`.
pub open spec fn run_scan(
    index: Seq<Seq<(i64, i64)>>,
    leaves: Seq<Seq<(i64, i64)>>,
    start: i64,
    end: i64,
    map: Map<i64, i64>,
) -> Map<i64, i64> {
    let leaf = leaf_for(index, start);
    if 0 <= leaf < leaves.len() {
        scan_pages(leaves, leaf, count_below(leaves[leaf], start) as int, end, map)
    } else {
        map
    }
}

/// The way down depends on where it stands only: from a page on it, the way
/// ends where the whole way ends.
proof fn lemma_descent_step(pages: Seq<Seq<(i64, i64)>>, limit: int, from: int, x: i64)
    requires
        0 <= from < limit <= pages.len(),
        pick_child(pages[from], x) > from,
    ensures
        descent(pages, limit, from, x) == if pick_child(pages[from], x) >= limit {
            pick_child(pages[from], x) as int
        } else {
            descent(pages, limit, pick_child(pages[from], x) as int, x)
        },
{
}

/// The leaf page, counted from the first, at which the way down through the
/// index in the file `internal_filename` for `key` ends, where that page is
/// one of the `leaf_total` leaf pages.
fn descend(
    disk: &Disk,
    internal_filename: &str,
    leaf_total: usize,
    key: i64,
    buffer: &mut BufferPool,
) -> (leaf: Option<usize>)
    requires
        old(buffer).wf(),
    ensures
        forall|names: Set<Seq<char>>|
            #![trigger names_within(old(buffer)@, names)]
            names_within(old(buffer)@, names) && names.contains(internal_filename@)
                ==> names_within(final(buffer)@, names),
        final(buffer).wf(),
        final(buffer).capacity() == old(buffer).capacity(),
        coherent(old(buffer)@, *disk) ==> coherent(final(buffer)@, *disk),
        coherent(old(buffer)@, *disk) && (forall|p: int|
            0 <= p < file_run(disk@, internal_filename@).len() ==> (#[trigger] file_run(
                disk@,
                internal_filename@,
            )[p]).len() > 0 && keys_ascend_after_first(file_run(disk@, internal_filename@)[p]))
            ==> match leaf {
            Some(at) => at == leaf_for(file_run(disk@, internal_filename@), key) && at < leaf_total,
            None => !(0 <= leaf_for(file_run(disk@, internal_filename@), key) < leaf_total),
        },
{
    let wanted: usize = disk.page_count(internal_filename);
    let limit: usize = pages_to_read(disk, internal_filename, wanted);
    let ghost index = file_run(disk@, internal_filename@);
    proof {
        if limit > 0 {
            assert(index =~= run_pages(disk@[internal_filename@], limit as nat));
        } else {
            assert(index.len() == 0);
        }
    }
    let ghost ok = coherent(old(buffer)@, *disk) && (forall|p: int|
        0 <= p < index.len() ==> (#[trigger] index[p]).len() > 0 && keys_ascend_after_first(
            index[p],
        ));
    let mut page_idx: usize = 0;
    while page_idx < limit
        invariant
            buffer.wf(),
            buffer.capacity() == old(buffer).capacity(),
            forall|names: Set<Seq<char>>|
                #![trigger names_within(old(buffer)@, names)]
                names_within(old(buffer)@, names) && names.contains(internal_filename@)
                    ==> names_within(buffer@, names),
            limit > 0 ==> readable(disk, internal_filename@, limit as nat),
            limit > 0 ==> index == run_pages(disk@[internal_filename@], limit as nat),
            index.len() == limit,
            index == file_run(disk@, internal_filename@),
            page_idx < limit || page_idx == 0,
            coherent(old(buffer)@, *disk) ==> coherent(buffer@, *disk),
            ok == (coherent(old(buffer)@, *disk) && (forall|p: int|
                0 <= p < index.len() ==> (#[trigger] index[p]).len() > 0
                    && keys_ascend_after_first(index[p]))),
            ok ==> descent(index, limit as int, 0, key) == descent(
                index,
                limit as int,
                page_idx as int,
                key,
            ),
        decreases limit - page_idx,
    {
        assert(page_idx * 4096 + 4096 <= disk@[internal_filename@].len()) by (nonlinear_arith)
            requires
                page_idx < limit,
                limit * 4096 <= disk@[internal_filename@].len(),
        ;
        let arr: Vec<(i64, i64)> = buffer.find_page(
            disk,
            internal_filename,
            page_idx * PAGE_SIZE,
        );
        proof {
            if ok {
                assert(arr@ == index[page_idx as int]);
                assert(index[page_idx as int].len() > 0);
            }
        }
        if arr.len() == 0 {
            return None;
        }
        let arr_idx: usize = match binary_search_internal_se_key(&arr, key) {
            Some(i) => i,
            None => 0,
        };
        let child: i64 = arr[arr_idx].1;
        proof {
            if ok {
                lemma_count_at_most(arr@, key);
                assert(child == pick_child(index[page_idx as int], key));
                if child > page_idx {
                    lemma_descent_step(index, limit as int, page_idx as int, key);
                }
            }
        }
        if child <= page_idx as i64 {
            return None;
        }
        if child >= limit as i64 {
            let offset: u64 = (child - limit as i64) as u64;
            if offset >= leaf_total as u64 {
                return None;
            }
            return Some(offset as usize);
        }
        page_idx = child as usize;
    }
    if leaf_total > 0 {
        Some(0)
    } else {
        None
    }
}

/// The value under `key` in the run whose leaf pages are in the file
/// `leaf_filename` and whose index is in the file `internal_filename`.
pub fn part3_search_b_tree_sst(
    disk: &Disk,
    leaf_filename: &str,
    internal_filename: &str,
    key: i64,
    buffer: &mut BufferPool,
) -> (value: Option<i64>)
    requires
        old(buffer).wf(),
    ensures
        forall|names: Set<Seq<char>>|
            #![trigger names_within(old(buffer)@, names)]
            names_within(old(buffer)@, names) && names.contains(internal_filename@) && names.contains(leaf_filename@)
                ==> names_within(final(buffer)@, names),
        final(buffer).wf(),
        final(buffer).capacity() == old(buffer).capacity(),
        coherent(old(buffer)@, *disk) ==> coherent(final(buffer)@, *disk),
        coherent(old(buffer)@, *disk) && run_shaped(
            file_run(disk@, internal_filename@),
            file_run(disk@, leaf_filename@),
        ) ==> value == run_search(
            file_run(disk@, internal_filename@),
            file_run(disk@, leaf_filename@),
            key,
        ),
{
    let wanted: usize = disk.page_count(leaf_filename);
    let leaf_total: usize = pages_to_read(disk, leaf_filename, wanted);
    let ghost index = file_run(disk@, internal_filename@);
    let ghost leaves = file_run(disk@, leaf_filename@);
    proof {
        if leaf_total > 0 {
            assert(leaves =~= run_pages(disk@[leaf_filename@], leaf_total as nat));
        } else {
            assert(leaves.len() == 0);
        }
    }
    let ghost ok = coherent(old(buffer)@, *disk) && run_shaped(index, leaves);
    match descend(disk, internal_filename, leaf_total, key, buffer) {
        Some(page_idx) => {
            if page_idx >= leaf_total {
                return None;
            }
            assert(page_idx * 4096 + 4096 <= disk@[leaf_filename@].len()) by (nonlinear_arith)
                requires
                    page_idx < leaf_total,
                    leaf_total * 4096 <= disk@[leaf_filename@].len(),
            ;
            let kv_arr: Vec<(i64, i64)> = buffer.find_page(
                disk,
                leaf_filename,
                page_idx * PAGE_SIZE,
            );
            let found: Option<usize> = binary_search_array_start_index(&kv_arr, key);
            proof {
                if ok {
                    assert(kv_arr@ == leaves[page_idx as int]);
                    assert(keys_ascend(kv_arr@));
                }
                if keys_ascend(kv_arr@) {
                    lemma_count_below(kv_arr@, key);
                    if crate::records::has_key(kv_arr@, key) {
                        let i = crate::records::index_of_key(kv_arr@, key);
                        crate::records::lemma_entry_at(kv_arr@, i);
                        let c = count_below(kv_arr@, key) as int;
                        if c < i {
                            assert(kv_arr@[c].0 < kv_arr@[i].0);
                        }
                    }
                    if let Some(i) = found {
                        if kv_arr@[i as int].0 == key {
                            crate::records::lemma_entry_at(kv_arr@, i as int);
                        }
                    }
                }
            }
            match found {
                Some(i) => {
                    if kv_arr[i].0 == key {
                        Some(kv_arr[i].1)
                    } else {
                        None
                    }
                },
                None => None,
            }
        },
        None => None,
    }
}

/// Adds to `kv_hash` the records of the run whose keys lie from `key1` to
/// `key2`, both included, except under keys that `kv_hash` holds already.
pub fn part3_scan_b_tree_sst(
    disk: &Disk,
    leaf_filename: &str,
    internal_filename: &str,
    key1: i64,
    key2: i64,
    kv_hash: &mut HashMap<i64, i64>,
    buffer: &mut BufferPool,
)
    requires
        old(buffer).wf(),
    ensures
        forall|names: Set<Seq<char>>|
            #![trigger names_within(old(buffer)@, names)]
            names_within(old(buffer)@, names) && names.contains(internal_filename@) && names.contains(leaf_filename@)
                ==> names_within(final(buffer)@, names),
        final(buffer).wf(),
        final(buffer).capacity() == old(buffer).capacity(),
        coherent(old(buffer)@, *disk) ==> coherent(final(buffer)@, *disk),
        coherent(old(buffer)@, *disk) && run_shaped(
            file_run(disk@, internal_filename@),
            file_run(disk@, leaf_filename@),
        ) ==> final(kv_hash)@ == run_scan(
            file_run(disk@, internal_filename@),
            file_run(disk@, leaf_filename@),
            key1,
            key2,
            old(kv_hash)@,
        ),
{
    let wanted: usize = disk.page_count(leaf_filename);
    let leaf_total_pages: usize = pages_to_read(disk, leaf_filename, wanted);
    let ghost index = file_run(disk@, internal_filename@);
    let ghost leaves = file_run(disk@, leaf_filename@);
    proof {
        if leaf_total_pages > 0 {
            assert(leaves =~= run_pages(disk@[leaf_filename@], leaf_total_pages as nat));
            assert(leaves =~= crate::sst::pages_on(disk@, leaf_filename@, leaf_total_pages as nat));
        } else {
            assert(leaves.len() == 0);
        }
    }
    let ghost ok = coherent(old(buffer)@, *disk) && run_shaped(index, leaves);
    match descend(disk, internal_filename, leaf_total_pages, key1, buffer) {
        Some(start_page_idx) => {
            if start_page_idx >= leaf_total_pages {
                return ;
            }
            assert(start_page_idx * 4096 + 4096 <= disk@[leaf_filename@].len()) by (nonlinear_arith)
                requires
                    start_page_idx < leaf_total_pages,
                    leaf_total_pages * 4096 <= disk@[leaf_filename@].len(),
            ;
            let kv_arr: Vec<(i64, i64)> = buffer.find_page(
                disk,
                leaf_filename,
                start_page_idx * PAGE_SIZE,
            );
            let found: Option<usize> = binary_search_array_start_index(&kv_arr, key1);
            proof {
                if ok {
                    assert(kv_arr@ == leaves[start_page_idx as int]);
                    assert(keys_ascend(kv_arr@));
                    lemma_count_below(kv_arr@, key1);
                }
            }
            match found {
                Some(start_arr_idx) => {
                    scan_b_tree_file(
                        disk,
                        leaf_filename,
                        leaf_total_pages,
                        start_page_idx,
                        start_arr_idx,
                        key2,
                        kv_hash,
                        buffer,
                    );
                },
                None => {
                    proof {
                        if ok {
                            let leaf = start_page_idx as int;
                            let at = count_below(leaves[leaf], key1) as int;
                            assert(at == leaves[leaf].len());
                            assert(scan_pages(leaves, leaf, at, key2, kv_hash@) == scan_pages(
                                leaves,
                                leaf + 1,
                                0,
                                key2,
                                kv_hash@,
                            ));
                            if leaf + 1 >= leaf_total_pages {
                                assert(scan_pages(leaves, leaf + 1, 0, key2, kv_hash@) == kv_hash@);
                            }
                        }
                    }
                    if start_page_idx < leaf_total_pages - 1 {
                        scan_b_tree_file(
                            disk,
                            leaf_filename,
                            leaf_total_pages,
                            start_page_idx + 1,
                            0,
                            key2,
                            kv_hash,
                            buffer,
                        );
                    }
                },
            }
        },
        None => {},
    }
}


/// The first keys of the pages of a run are the first keys of its leaf
/// pages.
pub proof fn lemma_page_mins_of_chunks(records: Seq<(i64, i64)>)
    ensures
        page_mins(chunks(records)) == leaf_mins(records),
{
    let pages = chunks(records);
    assert forall|j: int| 0 <= j < pages.len() implies page_mins(pages)[j] == leaf_mins(
        records,
    )[j] by {
        crate::sst::lemma_chunk_at(records, j, 0);
    }
    assert(page_mins(pages) =~= leaf_mins(records));
}

/// A search in the run of sorted records, through the index over its leaf
/// pages, finds what the records hold under the key.
pub proof fn lemma_run_search(records: Seq<(i64, i64)>, key: i64)
    requires
        keys_ascend(records),
        2 * records.len() + 2 <= i64::MAX,
    ensures
        run_shaped(index_pages(chunks(records)), chunks(records)),
        run_search(index_pages(chunks(records)), chunks(records), key) == lookup(records, key),
{
    let leaves = chunks(records);
    let mins = leaf_mins(records);
    lemma_page_mins_of_chunks(records);
    let index = index_pages(leaves);
    assert(index == internal_pages(mins));
    lemma_leaf_mins_ascend(records);
    lemma_internal_pages_len(mins);
    crate::sst::lemma_chunks_ascend(records);
    assert forall|p: int| 0 <= p < index.len() implies (#[trigger] index[p]).len() > 0
        && keys_ascend_after_first(index[p]) by {
        lemma_internal_shape(mins, p);
    }
    if records.len() == 0 {
        assert(leaves.len() == 0);
        assert(!crate::records::has_key(records, key));
    } else {
        lemma_descent_finds_leaf(mins, key);
        lemma_covering_leaf(records, key);
        assert(leaf_for(index, key) == covering(mins, key));
    }
}

/// The records that a run holds, as a map: under each key what a search
/// for it finds.
pub open spec fn run_map(index: Seq<Seq<(i64, i64)>>, leaves: Seq<Seq<(i64, i64)>>) -> Map<i64, i64> {
    Map::new(
        |k: i64| run_search(index, leaves, k) is Some,
        |k: i64| run_search(index, leaves, k)->0,
    )
}

/// The map of the run of sorted records is the map of the records.
pub proof fn lemma_run_map(records: Seq<(i64, i64)>)
    requires
        keys_ascend(records),
        2 * records.len() + 2 <= i64::MAX,
    ensures
        run_map(index_pages(chunks(records)), chunks(records)) == crate::records::entries_map(
            records,
        ),
{
    let held = run_map(index_pages(chunks(records)), chunks(records));
    assert forall|k: i64| held.contains_key(k) == crate::records::entries_map(
        records,
    ).contains_key(k) by {
        lemma_run_search(records, k);
    }
    assert forall|k: i64| held.contains_key(k) implies held[k] == crate::records::entries_map(
        records,
    )[k] by {
        lemma_run_search(records, k);
    }
    assert(held =~= crate::records::entries_map(records));
}

/// The index file that is written for leaf pages is read back as the pages
/// of the index, where the file is new.
pub proof fn lemma_index_file(
    disk: Map<Seq<char>, Seq<u8>>,
    path: Seq<char>,
    leaves: Seq<Seq<(i64, i64)>>,
)
    requires
        !disk.contains_key(path),
        2 * leaves.len() <= i64::MAX,
    ensures
        file_run(with_index(disk, path, index_pages(leaves)), path) == index_pages(leaves),
{
    let pages = index_pages(leaves);
    let after = with_index(disk, path, pages);
    lemma_internal_storable(page_mins(leaves));
    lemma_images_pages(pages);
    if pages.len() == 0 {
        assert(file_run(after, path) =~= pages);
    } else {
        assert(after[path] == images(pages));
        assert(crate::sst::whole_pages(after, path) == pages.len());
        assert(file_run(after, path) =~= pages);
    }
}

} // verus!
