//! Static search-tree runs in one file: the pages of the tree's upper
//! levels, the root first, followed by the sorted leaf pages.

use crate::buffer::{BufferPool, coherent, names_within};
use crate::disk::Disk;
use crate::page::{
    PAGE_SIZE, chunk, chunks, decode_page, lemma_page_of_joined, lemma_page_round_trip,
    lemma_pages_image_len, padding_record, page_count, page_of, pages_image, storable,
};
use crate::path::{db_prefix_text, sst_path_text};
use crate::records::{insert_if_absent, keys_ascend};
use crate::search::{
    binary_search_array_start_index, binary_search_internal_se_key, count_below,
    keys_ascend_after_first, lemma_count_at_most, lemma_count_below, lookup,
};
use crate::sst::{
    appended, file_run, fits_in_file, get_sst_names, pages_on, run_pages, scan_pages,
    serialize_kv_to_file,
};
use crate::storage::layout::{
    build_internal_pages, child_start, covering, descent, internal_pages, lemma_covering,
    lemma_covering_is, lemma_descent_finds_leaf, lemma_fanout, lemma_internal_pages_len,
    level_pages, level_up, mins_ascend, node_count, node_entries, pages_view, pick_child,
};
use std::collections::HashMap;
use vstd::prelude::*;

verus! {

/// The first key of each leaf page of a run of `records`.
pub open spec fn leaf_mins(records: Seq<(i64, i64)>) -> Seq<i64> {
    Seq::new(page_count(records.len()), |j: int| records[256 * j].0)
}

/// The pages `pages` as they lie in a file, one after the other.
pub open spec fn images(pages: Seq<Seq<(i64, i64)>>) -> Seq<u8>
    decreases pages.len(),
{
    if pages.len() == 0 {
        Seq::empty()
    } else {
        images(pages.drop_last()) + pages_image(pages.last())
    }
}

/// What a run of `records` looks like in a file: the pages of the tree's
/// upper levels, the root first, then the leaf pages.
pub open spec fn btree_image(records: Seq<(i64, i64)>) -> Seq<u8> {
    images(internal_pages(leaf_mins(records))) + pages_image(records)
}

/// Appending twice is appending both at once.
pub proof fn lemma_appended_twice(
    disk: Map<Seq<char>, Seq<u8>>,
    path: Seq<char>,
    first: Seq<u8>,
    second: Seq<u8>,
)
    ensures
        appended(appended(disk, path, first), path, second) == appended(disk, path, first + second),
{
    let once = appended(disk, path, first);
    if disk.contains_key(path) {
        assert((disk[path] + first) + second =~= disk[path] + (first + second));
    }
    assert(appended(once, path, second) =~= appended(disk, path, first + second));
}

/// The first key of each leaf page of a run of `leaf_lst`.
fn collect_leaf_mins(leaf_lst: &Vec<(i64, i64)>) -> (mins: Vec<i64>)
    requires
        leaf_lst@.len() + 256 <= usize::MAX,
    ensures
        mins@ == leaf_mins(leaf_lst@),
{
    let count: usize = leaf_lst.len();
    let leaves: usize = (count + 255) / 256;
    let mut mins: Vec<i64> = Vec::with_capacity(leaves);
    let mut j: usize = 0;
    while j < leaves
        invariant
            j <= leaves,
            count == leaf_lst@.len(),
            count + 256 <= usize::MAX,
            leaves == (count + 255) / 256,
            mins@.len() == j,
            forall|i: int| 0 <= i < j ==> mins@[i] == leaf_lst@[256 * i].0,
        decreases leaves - j,
    {
        assert(256 * j < count);
        mins.push(leaf_lst[256 * j].0);
        j += 1;
    }
    assert(mins@ =~= leaf_mins(leaf_lst@));
    mins
}

/// The image of one page more is the image so far and that page's image.
pub proof fn lemma_images_step(pages: Seq<Seq<(i64, i64)>>, i: int)
    requires
        0 <= i < pages.len(),
    ensures
        images(pages.take(i + 1)) == images(pages.take(i)) + pages_image(pages[i]),
        images(pages.take(0)) == Seq::<u8>::empty(),
        pages.take(pages.len() as int) == pages,
{
    let more = pages.take(i + 1);
    assert(more.drop_last() =~= pages.take(i));
    assert(more.last() == pages[i]);
    assert(pages.take(pages.len() as int) =~= pages);
}

/// What the file holds after one page more was appended.
pub proof fn lemma_tree_step(
    start: Map<Seq<char>, Seq<u8>>,
    before: Map<Seq<char>, Seq<u8>>,
    after: Map<Seq<char>, Seq<u8>>,
    path: Seq<char>,
    pages: Seq<Seq<(i64, i64)>>,
    i: int,
)
    requires
        0 <= i < pages.len(),
        i == 0 ==> before == start,
        i > 0 ==> before == appended(start, path, images(pages.take(i))),
        after == appended(before, path, pages_image(pages[i])),
    ensures
        after == appended(start, path, images(pages.take(i + 1))),
{
    lemma_images_step(pages, i);
    if i > 0 {
        lemma_appended_twice(start, path, images(pages.take(i)), pages_image(pages[i]));
    } else {
        assert(images(pages.take(1)) =~= pages_image(pages[0]));
    }
}

/// What the file holds after the leaf pages were appended.
pub proof fn lemma_tree_done(
    start: Map<Seq<char>, Seq<u8>>,
    before: Map<Seq<char>, Seq<u8>>,
    after: Map<Seq<char>, Seq<u8>>,
    path: Seq<char>,
    pages: Seq<Seq<(i64, i64)>>,
    leaves: Seq<u8>,
)
    requires
        pages.len() == 0 ==> before == start,
        pages.len() > 0 ==> before == appended(start, path, images(pages)),
        after == appended(before, path, leaves),
    ensures
        after == appended(start, path, images(pages) + leaves),
{
    if pages.len() > 0 {
        lemma_appended_twice(start, path, images(pages), leaves);
    } else {
        assert(images(pages) + leaves =~= leaves);
    }
}

/// Appends to the file at `file_path` a search tree over the sorted records
/// of `leaf_lst`: the pages of the upper levels, the root first, then the
/// records themselves as leaf pages.
pub fn convert_sorted_arr_to_b_tree_arr_and_serialize(
    disk: &mut Disk,
    file_path: &str,
    leaf_lst: &Vec<(i64, i64)>,
)
    requires
        fits_in_file(leaf_lst@.len()),
    ensures
        final(disk)@ == appended(old(disk)@, file_path@, btree_image(leaf_lst@)),
        final(disk).names() == if old(disk)@.contains_key(file_path@) {
            old(disk).names()
        } else {
            old(disk).names().push(file_path@)
        },
{
    let mins: Vec<i64> = collect_leaf_mins(leaf_lst);
    let internal: Vec<Vec<(i64, i64)>> = build_internal_pages(mins);
    let ghost upper = internal_pages(leaf_mins(leaf_lst@));
    assert(internal@.len() == upper.len()) by {
        assert(pages_view(internal@).len() == internal@.len());
    }
    let mut i: usize = 0;
    while i < internal.len()
        invariant
            i <= internal@.len(),
            internal@.len() == upper.len(),
            pages_view(internal@) == upper,
            upper == internal_pages(leaf_mins(leaf_lst@)),
            i == 0 ==> disk@ == old(disk)@ && disk.names() == old(disk).names(),
            i > 0 ==> disk@ == appended(old(disk)@, file_path@, images(upper.take(i as int))),
            i > 0 ==> disk.names() == if old(disk)@.contains_key(file_path@) {
                old(disk).names()
            } else {
                old(disk).names().push(file_path@)
            },
        decreases internal@.len() - i,
    {
        proof {
            assert(pages_view(internal@)[i as int] == internal@[i as int]@);
            lemma_node_size(leaf_mins(leaf_lst@), i as int);
        }
        let ghost before = disk@;
        serialize_kv_to_file(disk, file_path, &internal[i]);
        proof {
            lemma_tree_step(old(disk)@, before, disk@, file_path@, upper, i as int);
        }
        i += 1;
    }
    let ghost before = disk@;
    serialize_kv_to_file(disk, file_path, leaf_lst);
    proof {
        if upper.len() > 0 {
            lemma_images_step(upper, 0);
        }
        lemma_tree_done(
            old(disk)@,
            before,
            disk@,
            file_path@,
            upper,
            pages_image(leaf_lst@),
        );
    }
}

/// Each page above the leaves has from 2 to 256 entries.
pub proof fn lemma_node_size(mins: Seq<i64>, p: int)
    requires
        0 <= p < internal_pages(mins).len(),
    ensures
        2 <= internal_pages(mins)[p].len() <= 256,
    decreases mins.len(),
{
    if mins.len() > 1 {
        let above = internal_pages(crate::storage::layout::level_up(mins));
        crate::storage::layout::lemma_fanout(mins.len(), 0);
        if p < above.len() {
            lemma_node_size(crate::storage::layout::level_up(mins), p);
        } else {
            crate::storage::layout::lemma_fanout(mins.len(), (p - above.len()) as nat);
        }
    }
}


/// The page has the form of a page above the leaves: its first two entries
/// share their key.
pub open spec fn looks_internal(page: Seq<(i64, i64)>) -> bool {
    page.len() > 1 && page[0].0 == page[1].0
}

/// Every page is sorted as its form asks: a page above the leaves from its
/// second entry on, a leaf page throughout.
pub open spec fn shaped(pages: Seq<Seq<(i64, i64)>>) -> bool {
    forall|p: int|
        0 <= p < pages.len() ==> if looks_internal(#[trigger] pages[p]) {
            keys_ascend_after_first(pages[p])
        } else {
            keys_ascend(pages[p])
        }
}

/// The leaf page at which the way down from page `from` for the key `x`
/// ends. The way follows, on each page above the leaves, the entry that
/// `pick_child` names; it ends outside the pages where an entry names no
/// later page.
pub open spec fn tree_leaf(pages: Seq<Seq<(i64, i64)>>, from: int, x: i64) -> int
    decreases pages.len() - from,
{
    if from < 0 || from >= pages.len() {
        from
    } else if !looks_internal(pages[from]) {
        from
    } else {
        let child = pick_child(pages[from], x);
        if child <= from {
            pages.len() as int
        } else if child >= pages.len() {
            child as int
        } else {
            tree_leaf(pages, child as int, x)
        }
    }
}

/// The value under `key` in the tree: that on the leaf page at which the way
/// down from the root ends.
pub open spec fn tree_search(pages: Seq<Seq<(i64, i64)>>, key: i64) -> Option<i64> {
    let leaf = tree_leaf(pages, 0, key);
    if 0 <= leaf < pages.len() {
        lookup(pages[leaf], key)
    } else {
        None
    }
}

/// What a scan of the tree for the keys from `start` to `end` leaves in
/// `map`: the walk begins on the leaf page at which the way down for `start`
/// ends, at the first record whose key is at least `start`.
pub open spec fn tree_scan(
    pages: Seq<Seq<(i64, i64)>>,
    start: i64,
    end: i64,
    map: Map<i64, i64>,
) -> Map<i64, i64> {
    let leaf = tree_leaf(pages, 0, start);
    if 0 <= leaf < pages.len() {
        scan_pages(pages, leaf, count_below(pages[leaf], start) as int, end, map)
    } else {
        map
    }
}

/// The way down ends on a page that has not the form of a page above the
/// leaves, or outside the pages.
pub proof fn lemma_tree_leaf_is_leaf(pages: Seq<Seq<(i64, i64)>>, from: int, x: i64)
    requires
        0 <= from,
    ensures
        from <= tree_leaf(pages, from, x),
        tree_leaf(pages, from, x) < pages.len() ==> !looks_internal(
            pages[tree_leaf(pages, from, x)],
        ),
    decreases pages.len() - from,
{
    if from < pages.len() && looks_internal(pages[from]) {
        let child = pick_child(pages[from], x);
        if from < child < pages.len() {
            lemma_tree_leaf_is_leaf(pages, child as int, x);
        }
    }
}

/// The bytes of the first `total` pages of the file are there to read.
pub open spec fn readable(disk: &Disk, path: Seq<char>, total: nat) -> bool {
    disk@.contains_key(path) && total * 4096 <= disk@[path].len() && total * 4096 <= usize::MAX
}

/// The number of whole pages of the file at `path` that there are to read,
/// up to `wanted`.
pub fn pages_to_read(disk: &Disk, path: &str, wanted: usize) -> (total: usize)
    ensures
        total <= wanted,
        total > 0 ==> readable(disk, path@, total as nat),
        total == wanted ==> pages_on(disk@, path@, wanted as nat) =~= run_pages(
            disk@[path@],
            wanted as nat,
        ) || wanted == 0,
        total < wanted ==> total == 0 && pages_on(disk@, path@, wanted as nat)
            == Seq::<Seq<(i64, i64)>>::empty(),
{
    match disk.file_len(path) {
        Some(len) => {
            if wanted <= len / PAGE_SIZE {
                assert(wanted * 4096 <= len) by (nonlinear_arith)
                    requires
                        wanted <= len / 4096,
                ;
                wanted
            } else {
                assert(wanted * 4096 > len) by (nonlinear_arith)
                    requires
                        wanted > len / 4096,
                ;
                0
            }
        },
        None => 0,
    }
}

/// The leaf page at which the way down from the root for `key` ends, and
/// its records.
fn find_leaf(disk: &Disk, filename: &str, total: usize, key: i64, buffer: &mut BufferPool) -> (found:
    Option<(usize, Vec<(i64, i64)>)>)
    requires
        old(buffer).wf(),
        total > 0 ==> readable(disk, filename@, total as nat),
    ensures
        forall|names: Set<Seq<char>>|
            #![trigger names_within(old(buffer)@, names)]
            names_within(old(buffer)@, names) && names.contains(filename@)
                ==> names_within(final(buffer)@, names),
        final(buffer).wf(),
        final(buffer).capacity() == old(buffer).capacity(),
        coherent(old(buffer)@, *disk) ==> coherent(final(buffer)@, *disk),
        coherent(old(buffer)@, *disk) && shaped(run_pages(disk@[filename@], total as nat))
            ==> match found {
            Some((leaf, records)) => leaf == tree_leaf(
                run_pages(disk@[filename@], total as nat),
                0,
                key,
            ) && leaf < total && records@ == run_pages(disk@[filename@], total as nat)[leaf as int],
            None => !(0 <= tree_leaf(run_pages(disk@[filename@], total as nat), 0, key) < total),
        },
{
    let ghost pages = run_pages(disk@[filename@], total as nat);
    let ghost ok = coherent(old(buffer)@, *disk) && shaped(pages);
    if total == 0 {
        return None;
    }
    let mut page_idx: usize = 0;
    while page_idx < total
        invariant
            buffer.wf(),
            buffer.capacity() == old(buffer).capacity(),
            forall|names: Set<Seq<char>>|
                #![trigger names_within(old(buffer)@, names)]
                names_within(old(buffer)@, names) && names.contains(filename@)
                    ==> names_within(buffer@, names),
            readable(disk, filename@, total as nat),
            pages == run_pages(disk@[filename@], total as nat),
            coherent(old(buffer)@, *disk) ==> coherent(buffer@, *disk),
            ok == (coherent(old(buffer)@, *disk) && shaped(pages)),
            ok ==> tree_leaf(pages, 0, key) == tree_leaf(pages, page_idx as int, key),
        decreases total - page_idx,
    {
        assert(page_idx * 4096 + 4096 <= disk@[filename@].len()) by (nonlinear_arith)
            requires
                page_idx < total,
                total * 4096 <= disk@[filename@].len(),
        ;
        let arr: Vec<(i64, i64)> = buffer.find_page(disk, filename, page_idx * PAGE_SIZE);
        proof {
            if ok {
                assert(arr@ == pages[page_idx as int]);
            }
        }
        if arr.len() > 1 && arr[0].0 == arr[1].0 {
            let arr_idx: usize = match binary_search_internal_se_key(&arr, key) {
                Some(i) => i,
                None => 0,
            };
            let child: i64 = arr[arr_idx].1;
            proof {
                if ok {
                    lemma_count_at_most(arr@, key);
                    assert(child == pick_child(pages[page_idx as int], key));
                }
            }
            if child <= page_idx as i64 || child >= total as i64 {
                return None;
            }
            page_idx = child as usize;
        } else {
            return Some((page_idx, arr));
        }
    }
    None
}

/// The value under `key` in the tree in the file `filename`.
pub fn search_b_tree_sst(disk: &Disk, filename: &str, key: i64, buffer: &mut BufferPool) -> (value:
    Option<i64>)
    requires
        old(buffer).wf(),
    ensures
        forall|names: Set<Seq<char>>|
            #![trigger names_within(old(buffer)@, names)]
            names_within(old(buffer)@, names) && names.contains(filename@)
                ==> names_within(final(buffer)@, names),
        final(buffer).wf(),
        final(buffer).capacity() == old(buffer).capacity(),
        coherent(old(buffer)@, *disk) ==> coherent(final(buffer)@, *disk),
        coherent(old(buffer)@, *disk) && shaped(file_run(disk@, filename@)) ==> value
            == tree_search(file_run(disk@, filename@), key),
{
    let total: usize = disk.page_count(filename);
    let total: usize = pages_to_read(disk, filename, total);
    let ghost pages = file_run(disk@, filename@);
    proof {
        if total > 0 {
            assert(pages =~= run_pages(disk@[filename@], total as nat));
        } else {
            assert(pages.len() == 0);
        }
    }
    match find_leaf(disk, filename, total, key, buffer) {
        Some((_, records)) => {
            let found: Option<usize> = binary_search_array_start_index(&records, key);
            proof {
                if coherent(old(buffer)@, *disk) && shaped(pages) {
                    lemma_tree_leaf_is_leaf(pages, 0, key);
                    let leaf = tree_leaf(pages, 0, key);
                    assert(records@ == pages[leaf]);
                    assert(keys_ascend(records@));
                }
                if keys_ascend(records@) {
                    lemma_count_below(records@, key);
                    if crate::records::has_key(records@, key) {
                        let i = crate::records::index_of_key(records@, key);
                        crate::records::lemma_entry_at(records@, i);
                        let c = count_below(records@, key) as int;
                        if i < c {
                        } else if c < i {
                            assert(records@[c].0 < records@[i].0);
                        }
                    }
                    if let Some(i) = found {
                        if records@[i as int].0 == key {
                            crate::records::lemma_entry_at(records@, i as int);
                        }
                    }
                }
            }
            match found {
                Some(i) => {
                    if records[i].0 == key {
                        Some(records[i].1)
                    } else {
                        None
                    }
                },
                None => None,
            }
        },
        None => None,
    }
}


/// Walks through the first `total_pages` pages of the file at `file_path`
/// from record `arr_idx` of page `page_idx` on and adds each record to
/// `kv_hash`, unless `kv_hash` holds its key already, until a key exceeds
/// `end` or the pages are exhausted. The pages are read through `buffer`.
pub fn scan_b_tree_file(
    disk: &Disk,
    file_path: &str,
    total_pages: usize,
    page_idx: usize,
    arr_idx: usize,
    end: i64,
    kv_hash: &mut HashMap<i64, i64>,
    buffer: &mut BufferPool,
)
    requires
        old(buffer).wf(),
    ensures
        forall|names: Set<Seq<char>>|
            #![trigger names_within(old(buffer)@, names)]
            names_within(old(buffer)@, names) && names.contains(file_path@)
                ==> names_within(final(buffer)@, names),
        final(buffer).wf(),
        final(buffer).capacity() == old(buffer).capacity(),
        coherent(old(buffer)@, *disk) ==> coherent(final(buffer)@, *disk),
        coherent(old(buffer)@, *disk) ==> final(kv_hash)@ == scan_pages(
            pages_on(disk@, file_path@, total_pages as nat),
            page_idx as int,
            arr_idx as int,
            end,
            old(kv_hash)@,
        ),
{
    let ghost pages = pages_on(disk@, file_path@, total_pages as nat);
    let total: usize = pages_to_read(disk, file_path, total_pages);
    if total < total_pages || total == 0 {
        return ;
    }
    let ghost ok = coherent(old(buffer)@, *disk);
    let mut local_page_idx: usize = page_idx;
    let mut local_arr_idx: usize = arr_idx;
    while local_page_idx < total_pages
        invariant
            buffer.wf(),
            buffer.capacity() == old(buffer).capacity(),
            forall|names: Set<Seq<char>>|
                #![trigger names_within(old(buffer)@, names)]
                names_within(old(buffer)@, names) && names.contains(file_path@)
                    ==> names_within(buffer@, names),
            total_pages > 0,
            readable(disk, file_path@, total_pages as nat),
            pages == run_pages(disk@[file_path@], total_pages as nat),
            ok == coherent(old(buffer)@, *disk),
            ok ==> coherent(buffer@, *disk),
            ok ==> scan_pages(pages, page_idx as int, arr_idx as int, end, old(kv_hash)@)
                == scan_pages(pages, local_page_idx as int, local_arr_idx as int, end, kv_hash@),
        decreases total_pages - local_page_idx,
    {
        assert(local_page_idx * 4096 + 4096 <= disk@[file_path@].len()) by (nonlinear_arith)
            requires
                local_page_idx < total_pages,
                total_pages * 4096 <= disk@[file_path@].len(),
        ;
        let kv_arr: Vec<(i64, i64)> = buffer.find_page(
            disk,
            file_path,
            local_page_idx * PAGE_SIZE,
        );
        proof {
            if ok {
                assert(kv_arr@ == pages[local_page_idx as int]);
            }
        }
        let mut i: usize = local_arr_idx;
        while i < kv_arr.len() && kv_arr[i].0 <= end
            invariant
                local_page_idx < total_pages,
                pages.len() == total_pages,
                ok ==> kv_arr@ == pages[local_page_idx as int],
                ok ==> scan_pages(pages, page_idx as int, arr_idx as int, end, old(kv_hash)@)
                    == scan_pages(pages, local_page_idx as int, i as int, end, kv_hash@),
            decreases kv_arr@.len() - i,
        {
            insert_if_absent(kv_hash, kv_arr[i].0, kv_arr[i].1);
            i += 1;
        }
        if i < kv_arr.len() {
            return ;
        }
        local_page_idx += 1;
        local_arr_idx = 0;
    }
}

/// Adds to `kv_hash` the records of the tree in the first `total_pages`
/// pages of the file at `file_path` whose keys lie from `start` to `end`,
/// except under keys that `kv_hash` holds already.
pub fn scan_b_tree_sst(
    disk: &Disk,
    file_path: &str,
    start: i64,
    end: i64,
    kv_hash: &mut HashMap<i64, i64>,
    total_pages: usize,
    buffer: &mut BufferPool,
)
    requires
        old(buffer).wf(),
    ensures
        forall|names: Set<Seq<char>>|
            #![trigger names_within(old(buffer)@, names)]
            names_within(old(buffer)@, names) && names.contains(file_path@)
                ==> names_within(final(buffer)@, names),
        final(buffer).wf(),
        final(buffer).capacity() == old(buffer).capacity(),
        coherent(old(buffer)@, *disk) ==> coherent(final(buffer)@, *disk),
        coherent(old(buffer)@, *disk) && shaped(pages_on(disk@, file_path@, total_pages as nat))
            ==> final(kv_hash)@ == tree_scan(
            pages_on(disk@, file_path@, total_pages as nat),
            start,
            end,
            old(kv_hash)@,
        ),
{
    let ghost pages = pages_on(disk@, file_path@, total_pages as nat);
    let total: usize = pages_to_read(disk, file_path, total_pages);
    if total < total_pages || total == 0 {
        proof {
            assert(pages.len() == 0);
        }
        return ;
    }
    match find_leaf(disk, file_path, total_pages, start, buffer) {
        Some((start_page_idx, records)) => {
            let found: Option<usize> = binary_search_array_start_index(&records, start);
            proof {
                if coherent(old(buffer)@, *disk) && shaped(pages) {
                    lemma_tree_leaf_is_leaf(pages, 0, start);
                    assert(records@ == pages[start_page_idx as int]);
                    assert(keys_ascend(records@));
                    lemma_count_below(records@, start);
                }
            }
            match found {
                Some(start_arr_idx) => {
                    scan_b_tree_file(
                        disk,
                        file_path,
                        total_pages,
                        start_page_idx,
                        start_arr_idx,
                        end,
                        kv_hash,
                        buffer,
                    );
                },
                None => {
                    proof {
                        if coherent(old(buffer)@, *disk) && shaped(pages) {
                            let leaf = start_page_idx as int;
                            let at = count_below(pages[leaf], start) as int;
                            assert(at == pages[leaf].len());
                            assert(scan_pages(pages, leaf, at, end, kv_hash@) == scan_pages(
                                pages,
                                leaf + 1,
                                0,
                                end,
                                kv_hash@,
                            ));
                            if leaf + 1 >= total_pages {
                                assert(scan_pages(pages, leaf + 1, 0, end, kv_hash@) == kv_hash@);
                            }
                        }
                    }
                    if start_page_idx < total_pages - 1 {
                        scan_b_tree_file(
                            disk,
                            file_path,
                            total_pages,
                            start_page_idx + 1,
                            0,
                            end,
                            kv_hash,
                            buffer,
                        );
                    }
                },
            }
        },
        None => {},
    }
}

/// Every one of the runs `0` to `count - 1` of the database `db` has pages
/// that are sorted as their forms ask.
pub open spec fn trees_shaped(disk: Map<Seq<char>, Seq<u8>>, db: Seq<char>, count: nat) -> bool {
    forall|i: nat| i < count ==> shaped(#[trigger] file_run(disk, sst_path_text(db, i)))
}

/// The value under `key` in the newest of the trees `0` to `count - 1` of
/// the database `db` that holds the key.
pub open spec fn newest_tree_value(
    disk: Map<Seq<char>, Seq<u8>>,
    db: Seq<char>,
    count: nat,
    key: i64,
) -> Option<i64>
    decreases count,
{
    if count == 0 {
        None
    } else {
        match tree_search(file_run(disk, sst_path_text(db, (count - 1) as nat)), key) {
            Some(v) => Some(v),
            None => newest_tree_value(disk, db, (count - 1) as nat, key),
        }
    }
}

/// The value under `key` in the trees of the database `db_name`: that of
/// the newest tree that holds the key.
pub fn get_b_tree_ssts(disk: &Disk, db_name: &str, key: i64, buffer: &mut BufferPool) -> (value:
    Option<i64>)
    requires
        old(buffer).wf(),
    ensures
        forall|names: Set<Seq<char>>|
            #![trigger names_within(old(buffer)@, names)]
            names_within(old(buffer)@, names) && (forall|j: nat|
                j < disk.count_under(db_prefix_text(db_name@)) ==> names.contains(
                    #[trigger] sst_path_text(db_name@, j),
                )) ==> names_within(final(buffer)@, names),
        final(buffer).wf(),
        final(buffer).capacity() == old(buffer).capacity(),
        coherent(old(buffer)@, *disk) ==> coherent(final(buffer)@, *disk),
        coherent(old(buffer)@, *disk) && trees_shaped(
            disk@,
            db_name@,
            disk.count_under(db_prefix_text(db_name@)),
        ) ==> value == newest_tree_value(
            disk@,
            db_name@,
            disk.count_under(db_prefix_text(db_name@)),
            key,
        ),
{
    let sst_names: Vec<String> = get_sst_names(disk, db_name);
    let ghost count = sst_names@.len();
    let ghost ok = coherent(old(buffer)@, *disk) && trees_shaped(disk@, db_name@, count);
    let mut i: usize = 0;
    while i < sst_names.len()
        invariant
            buffer.wf(),
            buffer.capacity() == old(buffer).capacity(),
            forall|names: Set<Seq<char>>|
                #![trigger names_within(old(buffer)@, names)]
                names_within(old(buffer)@, names) && (forall|j: nat|
                    j < disk.count_under(db_prefix_text(db_name@)) ==> names.contains(
                        #[trigger] sst_path_text(db_name@, j),
                    )) ==> names_within(buffer@, names),
            i <= sst_names@.len(),
            count == sst_names@.len(),
            count == disk.count_under(db_prefix_text(db_name@)),
            forall|k: int|
                0 <= k < count ==> (#[trigger] sst_names@[k])@ == sst_path_text(
                    db_name@,
                    (count - 1 - k) as nat,
                ),
            coherent(old(buffer)@, *disk) ==> coherent(buffer@, *disk),
            ok == (coherent(old(buffer)@, *disk) && trees_shaped(disk@, db_name@, count)),
            ok ==> newest_tree_value(disk@, db_name@, count, key) == newest_tree_value(
                disk@,
                db_name@,
                (count - i) as nat,
                key,
            ),
        decreases sst_names@.len() - i,
    {
        let name: &str = sst_names[i].as_str();
        let ghost path = sst_path_text(db_name@, (count - 1 - i) as nat);
        let value: Option<i64> = search_b_tree_sst(disk, name, key, buffer);
        proof {
            assert(name@ == path);
            if ok {
                assert(shaped(file_run(disk@, sst_path_text(db_name@, (count - 1 - i) as nat))));
                assert(value == tree_search(file_run(disk@, path), key));
                assert(newest_tree_value(disk@, db_name@, (count - i) as nat, key) == match value {
                    Some(v) => Some(v),
                    None => newest_tree_value(disk@, db_name@, (count - i - 1) as nat, key),
                });
            }
        }
        if value.is_some() {
            return value;
        }
        i += 1;
    }
    None
}

/// What a scan of the trees `0` to `count - 1` of the database `db` for the
/// keys from `start` to `end` leaves in `map`: the trees are scanned one
/// after the other, from the newest on.
pub open spec fn scan_trees(
    disk: Map<Seq<char>, Seq<u8>>,
    db: Seq<char>,
    count: nat,
    start: i64,
    end: i64,
    map: Map<i64, i64>,
) -> Map<i64, i64>
    decreases count,
{
    if count == 0 {
        map
    } else {
        scan_trees(
            disk,
            db,
            (count - 1) as nat,
            start,
            end,
            tree_scan(file_run(disk, sst_path_text(db, (count - 1) as nat)), start, end, map),
        )
    }
}

/// Adds to `kv_hash` the records of the trees of the database `db_name`
/// whose keys lie from `start` to `end`, both included, the newest tree
/// first, except under keys that `kv_hash` holds already.
pub fn scan_b_tree_ssts(
    disk: &Disk,
    db_name: &str,
    start: i64,
    end: i64,
    kv_hash: &mut HashMap<i64, i64>,
    buffer: &mut BufferPool,
)
    requires
        old(buffer).wf(),
    ensures
        forall|names: Set<Seq<char>>|
            #![trigger names_within(old(buffer)@, names)]
            names_within(old(buffer)@, names) && (forall|j: nat|
                j < disk.count_under(db_prefix_text(db_name@)) ==> names.contains(
                    #[trigger] sst_path_text(db_name@, j),
                )) ==> names_within(final(buffer)@, names),
        final(buffer).wf(),
        final(buffer).capacity() == old(buffer).capacity(),
        coherent(old(buffer)@, *disk) ==> coherent(final(buffer)@, *disk),
        coherent(old(buffer)@, *disk) && trees_shaped(
            disk@,
            db_name@,
            disk.count_under(db_prefix_text(db_name@)),
        ) ==> final(kv_hash)@ == scan_trees(
            disk@,
            db_name@,
            disk.count_under(db_prefix_text(db_name@)),
            start,
            end,
            old(kv_hash)@,
        ),
{
    let sst_names: Vec<String> = get_sst_names(disk, db_name);
    let ghost count = sst_names@.len();
    let ghost ok = coherent(old(buffer)@, *disk) && trees_shaped(disk@, db_name@, count);
    let ghost want = scan_trees(disk@, db_name@, count, start, end, old(kv_hash)@);
    let mut i: usize = 0;
    while i < sst_names.len()
        invariant
            buffer.wf(),
            buffer.capacity() == old(buffer).capacity(),
            forall|names: Set<Seq<char>>|
                #![trigger names_within(old(buffer)@, names)]
                names_within(old(buffer)@, names) && (forall|j: nat|
                    j < disk.count_under(db_prefix_text(db_name@)) ==> names.contains(
                        #[trigger] sst_path_text(db_name@, j),
                    )) ==> names_within(buffer@, names),
            i <= sst_names@.len(),
            count == sst_names@.len(),
            count == disk.count_under(db_prefix_text(db_name@)),
            forall|k: int|
                0 <= k < count ==> (#[trigger] sst_names@[k])@ == sst_path_text(
                    db_name@,
                    (count - 1 - k) as nat,
                ),
            coherent(old(buffer)@, *disk) ==> coherent(buffer@, *disk),
            ok == (coherent(old(buffer)@, *disk) && trees_shaped(disk@, db_name@, count)),
            want == scan_trees(disk@, db_name@, count, start, end, old(kv_hash)@),
            ok ==> want == scan_trees(
                disk@,
                db_name@,
                (count - i) as nat,
                start,
                end,
                kv_hash@,
            ),
        decreases sst_names@.len() - i,
    {
        let name: &str = sst_names[i].as_str();
        let total_pages: usize = disk.page_count(name);
        let ghost before = kv_hash@;
        let ghost path = sst_path_text(db_name@, (count - 1 - i) as nat);
        proof {
            assert(name@ == path);
            if disk@.contains_key(path) {
                assert(total_pages * 4096 <= disk@[path].len()) by (nonlinear_arith)
                    requires
                        total_pages == disk@[path].len() / 4096,
                ;
            }
            assert(pages_on(disk@, path, total_pages as nat) =~= file_run(disk@, path));
            if ok {
                assert(shaped(file_run(disk@, sst_path_text(db_name@, (count - 1 - i) as nat))));
            }
        }
        scan_b_tree_sst(disk, name, start, end, kv_hash, total_pages, buffer);
        proof {
            if ok {
                assert(kv_hash@ == tree_scan(file_run(disk@, path), start, end, before));
                assert(scan_trees(disk@, db_name@, (count - i) as nat, start, end, before)
                    == scan_trees(disk@, db_name@, (count - i - 1) as nat, start, end, kv_hash@));
            }
        }
        i += 1;
    }
}


/// The pages can be read back as they are written: each holds from 1 to 256
/// records and does not end with the padding record.
pub open spec fn pages_storable(pages: Seq<Seq<(i64, i64)>>) -> bool {
    forall|p: int|
        0 <= p < pages.len() ==> 1 <= (#[trigger] pages[p]).len() <= 256 && pages[p].last()
            != padding_record()
}

/// One page of records that can be read back is written as 4,096 bytes and
/// read back as it was.
pub proof fn lemma_single_page(page: Seq<(i64, i64)>)
    requires
        1 <= page.len() <= 256,
        page.last() != padding_record(),
    ensures
        pages_image(page).len() == 4096,
        decode_page(pages_image(page)) == page,
{
    lemma_pages_image_len(page);
    assert(page_count(page.len()) == 1);
    assert(chunk(page, 0) =~= page);
    lemma_page_round_trip(page, 0);
    assert(page_of(pages_image(page), 0) =~= pages_image(page));
}

/// The image of pages of 4,096 bytes each is that many pages long, and its
/// pages are the images of the pages.
pub proof fn lemma_images_bytes(pages: Seq<Seq<(i64, i64)>>, p: int)
    requires
        forall|q: int| 0 <= q < pages.len() ==> (#[trigger] pages_image(pages[q])).len() == 4096,
        0 <= p < pages.len(),
    ensures
        images(pages).len() == 4096 * pages.len(),
        page_of(images(pages), p) == pages_image(pages[p]),
    decreases pages.len(),
{
    let front = pages.drop_last();
    let last = pages.last();
    assert forall|q: int| 0 <= q < front.len() implies (#[trigger] pages_image(front[q])).len()
        == 4096 by {
        assert(front[q] == pages[q]);
    }
    assert(pages_image(last).len() == 4096);
    if front.len() > 0 {
        lemma_images_bytes(front, 0);
    }
    assert(images(front).len() == 4096 * front.len());
    assert(images(pages) == images(front) + pages_image(last));
    lemma_page_of_joined(images(front), pages_image(last), p);
    if p < front.len() {
        lemma_images_bytes(front, p);
        assert(front[p] == pages[p]);
    } else {
        assert(page_of(pages_image(last), 0) =~= pages_image(last));
    }
}

/// The image of pages that can be read back is read back as these pages.
pub proof fn lemma_images_pages(pages: Seq<Seq<(i64, i64)>>)
    requires
        pages_storable(pages),
    ensures
        images(pages).len() == 4096 * pages.len(),
        forall|p: int|
            0 <= p < pages.len() ==> decode_page(#[trigger] page_of(images(pages), p)) == pages[p],
{
    assert forall|q: int| 0 <= q < pages.len() implies (#[trigger] pages_image(pages[q])).len()
        == 4096 by {
        lemma_single_page(pages[q]);
    }
    if pages.len() > 0 {
        lemma_images_bytes(pages, 0);
    }
    assert forall|p: int| 0 <= p < pages.len() implies decode_page(
        #[trigger] page_of(images(pages), p),
    ) == pages[p] by {
        lemma_images_bytes(pages, p);
        lemma_single_page(pages[p]);
    }
}

/// The entries of the pages above the leaves name pages from 0 on: none of
/// these pages ends with the padding record.
pub proof fn lemma_internal_storable(mins: Seq<i64>)
    requires
        2 * mins.len() <= i64::MAX,
    ensures
        pages_storable(internal_pages(mins)),
    decreases mins.len(),
{
    let pages = internal_pages(mins);
    if mins.len() > 1 {
        let up = level_up(mins);
        let above = internal_pages(up);
        lemma_fanout(mins.len(), 0);
        lemma_internal_pages_len(up);
        lemma_internal_storable(up);
        let base = above.len() + node_count(mins.len());
        assert(pages =~= above + level_pages(mins, base as int));
        assert((0xdeadbeefdeadbeefu64 as i64) < 0) by (bit_vector);
        assert forall|p: int| 0 <= p < pages.len() implies 1 <= (#[trigger] pages[p]).len() <= 256
            && pages[p].last() != padding_record() by {
            if p < above.len() {
                assert(pages[p] == above[p]);
            } else {
                let t = (p - above.len()) as nat;
                lemma_fanout(mins.len(), t);
                let entries = node_entries(mins, t, base as int);
                assert(pages[p] == entries);
                let k = entries.len() - 1;
                let child = base + child_start(mins.len(), t) + k;
                assert(0 <= child <= i64::MAX);
                assert(entries[k].1 == child as i64);
            }
        }
    }
}

/// All whole pages of a file.
pub open spec fn file_pages(bytes: Seq<u8>) -> Seq<Seq<(i64, i64)>> {
    run_pages(bytes, (bytes.len() / 4096) as nat)
}

/// Page `p` of two files in a row, each a whole number of pages long.
proof fn lemma_joined_page(
    first: Seq<u8>,
    second: Seq<u8>,
    m: int,
    n: int,
    p: int,
)
    requires
        first.len() == 4096 * m,
        second.len() == 4096 * n,
        0 <= m,
        0 <= n,
        0 <= p < m + n,
    ensures
        (first + second).len() / 4096 == m + n,
        p < m ==> page_of(first + second, p) == page_of(first, p),
        p >= m ==> page_of(first + second, p) == page_of(second, p - m),
{
    lemma_page_of_joined(first, second, p);
}

/// The pages of the image of a search tree over records that can be read
/// back: the pages above the leaves, then the pages of the records.
pub proof fn lemma_tree_pages(records: Seq<(i64, i64)>)
    requires
        storable(records),
        2 * records.len() + 2 <= i64::MAX,
    ensures
        btree_image(records).len() == 4096 * (internal_pages(leaf_mins(records)).len()
            + page_count(records.len())),
        file_pages(btree_image(records)) == internal_pages(leaf_mins(records)) + chunks(records),
{
    let mins = leaf_mins(records);
    let upper = internal_pages(mins);
    lemma_internal_pages_len(mins);
    lemma_internal_storable(mins);
    lemma_images_pages(upper);
    crate::page::lemma_image_pages(records);
    let first = images(upper);
    let second = pages_image(records);
    let all = btree_image(records);
    let want = upper + chunks(records);
    let m = upper.len() as int;
    let n = page_count(records.len()) as int;
    assert(all == first + second);
    if m + n > 0 {
        lemma_joined_page(first, second, m, n, 0);
    }
    assert(all.len() == 4096 * (m + n));
    assert(file_pages(all).len() == want.len());
    assert forall|p: int| 0 <= p < want.len() implies file_pages(all)[p] == want[p] by {
        lemma_joined_page(first, second, m, n, p);
        if p < m {
            assert(want[p] == upper[p]);
        } else {
            assert(want[p] == chunk(records, p - m));
        }
    }
    assert(file_pages(all) =~= want);
}

/// The first keys of the leaf pages of a sorted run rise.
pub proof fn lemma_leaf_mins_ascend(records: Seq<(i64, i64)>)
    requires
        keys_ascend(records),
    ensures
        mins_ascend(leaf_mins(records)),
{
    let mins = leaf_mins(records);
    assert forall|i: int, j: int| 1 <= i < j < mins.len() implies mins[i] < mins[j] by {
        assert(records[256 * i].0 < records[256 * j].0);
    }
}

/// Every page above the leaves has the form of such a page and is sorted
/// from its second entry on.
pub proof fn lemma_internal_shape(mins: Seq<i64>, p: int)
    requires
        mins_ascend(mins),
        0 <= p < internal_pages(mins).len(),
    ensures
        looks_internal(internal_pages(mins)[p]),
        keys_ascend_after_first(internal_pages(mins)[p]),
    decreases mins.len(),
{
    if mins.len() > 1 {
        let up = level_up(mins);
        let above = internal_pages(up);
        lemma_fanout(mins.len(), 0);
        crate::storage::layout::lemma_level_up_ascends(mins);
        let base = above.len() + node_count(mins.len());
        assert(internal_pages(mins) =~= above + level_pages(mins, base as int));
        if p < above.len() {
            lemma_internal_shape(up, p);
        } else {
            let t = (p - above.len()) as nat;
            lemma_fanout(mins.len(), t);
            let entries = node_entries(mins, t, base as int);
            let start = child_start(mins.len(), t) as int;
            assert(internal_pages(mins)[p] == entries);
            assert(entries[0].0 == entries[1].0);
            assert forall|a: int, b: int| 1 <= a < b < entries.len() implies entries[a].0
                < entries[b].0 by {
                assert(mins[start + a] < mins[start + b]);
            }
        }
    }
}

/// Where all pages below `limit` have the form of a page above the leaves,
/// the way down by the form of the pages is the way down to `limit`, as far
/// as that ends on a page that has not that form.
pub proof fn lemma_tree_leaf_is_descent(
    pages: Seq<Seq<(i64, i64)>>,
    limit: int,
    from: int,
    x: i64,
)
    requires
        0 <= from,
        limit <= pages.len(),
        forall|p: int| 0 <= p < limit ==> looks_internal(#[trigger] pages[p]),
        limit <= descent(pages, limit, from, x) < pages.len(),
        !looks_internal(pages[descent(pages, limit, from, x)]),
    ensures
        tree_leaf(pages, from, x) == descent(pages, limit, from, x),
    decreases limit - from,
{
    if from < limit {
        let child = pick_child(pages[from], x);
        assert(looks_internal(pages[from]));
        if from < child < limit {
            lemma_tree_leaf_is_descent(pages, limit, child as int, x);
        } else {
            assert(child >= limit);
            assert(descent(pages, limit, from, x) == child);
            assert(tree_leaf(pages, child as int, x) == child);
        }
    }
}

/// A search in the tree over a sorted run finds what the run holds under
/// the key.
pub proof fn lemma_tree_search(records: Seq<(i64, i64)>, key: i64)
    requires
        keys_ascend(records),
        2 * records.len() + 2 <= i64::MAX,
    ensures
        shaped(internal_pages(leaf_mins(records)) + chunks(records)),
        tree_search(internal_pages(leaf_mins(records)) + chunks(records), key) == lookup(
            records,
            key,
        ),
{
    let mins = leaf_mins(records);
    let upper = internal_pages(mins);
    let leaves = chunks(records);
    let pages = upper + leaves;
    let limit = upper.len() as int;
    lemma_leaf_mins_ascend(records);
    lemma_internal_pages_len(mins);
    crate::sst::lemma_chunks_ascend(records);
    assert forall|p: int| 0 <= p < pages.len() implies if looks_internal(#[trigger] pages[p]) {
        keys_ascend_after_first(pages[p])
    } else {
        keys_ascend(pages[p])
    } by {
        if p < limit {
            assert(pages[p] == upper[p]);
            lemma_internal_shape(mins, p);
        } else {
            let leaf = leaves[p - limit];
            assert(pages[p] == leaf);
            assert(keys_ascend(leaf));
            if leaf.len() > 1 {
                assert(leaf[0].0 < leaf[1].0);
            }
        }
    }
    if records.len() == 0 {
        assert(pages.len() == 0);
        assert(!crate::records::has_key(records, key));
    } else {
        lemma_descent_finds_leaf(mins, key);
        lemma_covering(mins, key);
        let at = covering(mins, key) as int;
        crate::storage::layout::lemma_descent_prefix(pages, upper, limit, 0, key);
        assert forall|p: int| 0 <= p < limit implies looks_internal(#[trigger] pages[p]) by {
            assert(pages[p] == upper[p]);
            lemma_internal_shape(mins, p);
        }
        let leaf = leaves[at];
        assert(pages[limit + at] == leaf);
        assert(keys_ascend(leaf));
        if leaf.len() > 1 {
            assert(leaf[0].0 < leaf[1].0);
        }
        lemma_tree_leaf_is_descent(pages, limit, 0, key);
        assert(tree_leaf(pages, 0, key) == limit + at);
        lemma_covering_leaf(records, key);
    }
}

/// The leaf page that covers a key holds the key, if the run holds it.
pub proof fn lemma_covering_leaf(records: Seq<(i64, i64)>, key: i64)
    requires
        keys_ascend(records),
        records.len() > 0,
    ensures
        covering(leaf_mins(records), key) < page_count(records.len()),
        lookup(chunk(records, covering(leaf_mins(records), key) as int), key) == lookup(
            records,
            key,
        ),
{
    let mins = leaf_mins(records);
    lemma_leaf_mins_ascend(records);
    lemma_covering(mins, key);
    let at = covering(mins, key) as int;
    let leaf = chunk(records, at);
    crate::sst::lemma_chunks_ascend(records);
    assert(chunks(records)[at] == leaf);
    if crate::records::has_key(records, key) {
        let i = crate::records::index_of_key(records, key);
        crate::records::lemma_entry_at(records, i);
        let p = i / 256;
        assert(0 <= p < mins.len());
        if p >= 1 {
            if 256 * p < i {
                assert(records[256 * p].0 < records[i].0);
            }
            assert(mins[p] <= key);
        }
        assert forall|q: int| p < q < mins.len() implies mins[q] > key by {
            assert(records[i].0 < records[256 * q].0);
        }
        lemma_covering_is(mins, key, p);
        crate::sst::lemma_chunk_at(records, p, i - 256 * p);
        assert(leaf[i - 256 * p] == records[i]);
        crate::records::lemma_entry_at(leaf, i - 256 * p);
    } else {
        if crate::records::has_key(leaf, key) {
            let j = crate::records::index_of_key(leaf, key);
            crate::sst::lemma_chunk_at(records, at, j);
            assert(records[256 * at + j].0 == key);
        }
    }
}


/// The records that a tree holds, as a map: under each key what a search
/// for it finds.
pub open spec fn tree_map(pages: Seq<Seq<(i64, i64)>>) -> Map<i64, i64> {
    Map::new(|k: i64| tree_search(pages, k) is Some, |k: i64| tree_search(pages, k)->0)
}

/// The records that the trees `0` to `count - 1` of the database `db` hold,
/// as a map: under each key the value of the newest tree that holds it.
pub open spec fn stored_trees(disk: Map<Seq<char>, Seq<u8>>, db: Seq<char>, count: nat) -> Map<
    i64,
    i64,
>
    decreases count,
{
    if count == 0 {
        Map::empty()
    } else {
        stored_trees(disk, db, (count - 1) as nat).union_prefer_right(
            tree_map(file_run(disk, sst_path_text(db, (count - 1) as nat))),
        )
    }
}

/// The value of the newest tree that holds a key is the value that the map
/// of the trees has under it.
pub proof fn lemma_newest_tree_value(
    disk: Map<Seq<char>, Seq<u8>>,
    db: Seq<char>,
    count: nat,
    key: i64,
)
    ensures
        newest_tree_value(disk, db, count, key) == if stored_trees(disk, db, count).contains_key(
            key,
        ) {
            Some(stored_trees(disk, db, count)[key])
        } else {
            None
        },
    decreases count,
{
    if count > 0 {
        lemma_newest_tree_value(disk, db, (count - 1) as nat, key);
    }
}

/// The map of the trees `0` to `count - 1` depends on these trees only.
pub proof fn lemma_stored_trees_frame(
    before: Map<Seq<char>, Seq<u8>>,
    after: Map<Seq<char>, Seq<u8>>,
    db: Seq<char>,
    count: nat,
)
    requires
        forall|j: nat|
            j < count ==> file_run(after, #[trigger] sst_path_text(db, j)) == file_run(
                before,
                sst_path_text(db, j),
            ),
    ensures
        stored_trees(after, db, count) == stored_trees(before, db, count),
    decreases count,
{
    if count > 0 {
        lemma_stored_trees_frame(before, after, db, (count - 1) as nat);
        assert(file_run(after, sst_path_text(db, (count - 1) as nat)) == file_run(
            before,
            sst_path_text(db, (count - 1) as nat),
        ));
    }
}

/// The file that a flush of the records `records` makes holds a search tree
/// over these records, where the records are sorted and can be read back:
/// its pages are sorted as their forms ask, and a search in it finds what
/// the records hold.
pub proof fn lemma_fresh_tree(disk: Map<Seq<char>, Seq<u8>>, path: Seq<char>, records: Seq<(i64, i64)>)
    requires
        disk.contains_key(path),
        disk[path] == btree_image(records),
        keys_ascend(records),
        storable(records),
        2 * records.len() + 2 <= i64::MAX,
    ensures
        shaped(file_run(disk, path)),
        tree_map(file_run(disk, path)) == crate::records::entries_map(records),
{
    lemma_tree_pages(records);
    let pages = internal_pages(leaf_mins(records)) + chunks(records);
    assert(file_run(disk, path) =~= file_pages(btree_image(records)));
    lemma_tree_search(records, 0);
    assert forall|k: i64| tree_map(pages).contains_key(k) == crate::records::entries_map(
        records,
    ).contains_key(k) by {
        lemma_tree_search(records, k);
    }
    assert forall|k: i64| tree_map(pages).contains_key(k) implies tree_map(pages)[k]
        == crate::records::entries_map(records)[k] by {
        lemma_tree_search(records, k);
    }
    assert(tree_map(pages) =~= crate::records::entries_map(records));
}


/// The pages are those of the search tree over the sorted records
/// `records`: the pages above the leaves, then the pages of the records.
pub open spec fn tree_of(pages: Seq<Seq<(i64, i64)>>, records: Seq<(i64, i64)>) -> bool {
    keys_ascend(records) && 2 * records.len() + 2 <= i64::MAX && pages == internal_pages(
        leaf_mins(records),
    ) + chunks(records)
}

/// Every one of the runs `0` to `count - 1` of the database `db` holds the
/// pages of a search tree over sorted records.
pub open spec fn trees_built(disk: Map<Seq<char>, Seq<u8>>, db: Seq<char>, count: nat) -> bool {
    forall|i: nat| i < count ==> is_tree(#[trigger] file_run(disk, sst_path_text(db, i)))
}

/// The pages are those of the search tree over some sorted records.
pub open spec fn is_tree(pages: Seq<Seq<(i64, i64)>>) -> bool {
    exists|records: Seq<(i64, i64)>| tree_of(pages, records)
}

/// Trees over sorted records have pages that are sorted as their forms
/// ask.
pub proof fn lemma_trees_built(disk: Map<Seq<char>, Seq<u8>>, db: Seq<char>, count: nat)
    requires
        trees_built(disk, db, count),
    ensures
        trees_shaped(disk, db, count),
{
    assert forall|i: nat| i < count implies shaped(
        #[trigger] file_run(disk, sst_path_text(db, i)),
    ) by {
        let pages = file_run(disk, sst_path_text(db, i));
        let records = choose|records: Seq<(i64, i64)>| tree_of(pages, records);
        lemma_tree_search(records, 0);
    }
}

/// The map of the search tree over sorted records is the map of the
/// records.
pub proof fn lemma_tree_map(records: Seq<(i64, i64)>)
    requires
        keys_ascend(records),
        2 * records.len() + 2 <= i64::MAX,
    ensures
        tree_map(internal_pages(leaf_mins(records)) + chunks(records))
            == crate::records::entries_map(records),
{
    let pages = internal_pages(leaf_mins(records)) + chunks(records);
    assert forall|k: i64| tree_map(pages).contains_key(k) == crate::records::entries_map(
        records,
    ).contains_key(k) by {
        lemma_tree_search(records, k);
    }
    assert forall|k: i64| tree_map(pages).contains_key(k) implies tree_map(pages)[k]
        == crate::records::entries_map(records)[k] by {
        lemma_tree_search(records, k);
    }
    assert(tree_map(pages) =~= crate::records::entries_map(records));
}

/// The file that a flush of the records `records` makes holds the pages of
/// the search tree over these records.
pub proof fn lemma_fresh_tree_of(
    disk: Map<Seq<char>, Seq<u8>>,
    path: Seq<char>,
    records: Seq<(i64, i64)>,
)
    requires
        disk.contains_key(path),
        disk[path] == btree_image(records),
        keys_ascend(records),
        storable(records),
        2 * records.len() + 2 <= i64::MAX,
    ensures
        tree_of(file_run(disk, path), records),
{
    lemma_tree_pages(records);
    assert(file_run(disk, path) =~= file_pages(btree_image(records)));
}

} // verus!
