//! Sorted runs on disk: writing records as pages, reading a page back, and
//! the searches and scans of the append-only backend.

use crate::disk::{Disk, count_prefixed, has_prefix};
use crate::page::{
    PAGE_SIZE, chunk, chunks, decode_page, decode_page_bytes, encode_records, lemma_image_pages,
    pad_page_bytes, page_count, page_of, pages_image, storable,
};
use crate::path::{db_prefix, db_prefix_text, lemma_sst_paths, sst_path, sst_path_text};
use crate::records::{
    entries_map, has_key, index_of_key, insert_if_absent, keys_ascend, lemma_entry_at,
    };
use crate::search::{
    binary_search_array, binary_search_array_start_index, count_below, lemma_count_below, lookup,
};
use std::collections::HashMap;
use vstd::prelude::*;

verus! {

/// What the file at `path` holds after `added` was appended to it.
pub open spec fn appended(disk: Map<Seq<char>, Seq<u8>>, path: Seq<char>, added: Seq<u8>) -> Map<
    Seq<char>,
    Seq<u8>,
> {
    disk.insert(
        path,
        if disk.contains_key(path) {
            disk[path] + added
        } else {
            added
        },
    )
}

/// The most records that one call can write: their bytes and the padding
/// must fit the machine's sizes.
pub open spec fn fits_in_file(records: nat) -> bool {
    16 * records + 4096 <= usize::MAX
}

/// Appends the records of `kv_arr` to the file at `file_path` as whole pages:
/// sixteen bytes for each record, then padding up to the next multiple of
/// the page size. The file is created where it does not exist.
pub fn serialize_kv_to_file(disk: &mut Disk, file_path: &str, kv_arr: &Vec<(i64, i64)>)
    requires
        fits_in_file(kv_arr@.len()),
    ensures
        final(disk)@ == appended(old(disk)@, file_path@, pages_image(kv_arr@)),
        final(disk).names() == if old(disk)@.contains_key(file_path@) {
            old(disk).names()
        } else {
            old(disk).names().push(file_path@)
        },
{
    let mut bytes: Vec<u8> = encode_records(kv_arr);
    pad_page_bytes(&mut bytes);
    disk.append(file_path, bytes);
}

/// The records of the page at `page_offset` of the file at `file_path`.
pub fn deserialize_page(disk: &Disk, file_path: &str, page_offset: usize) -> (records: Vec<
    (i64, i64),
>)
    requires
        disk.has_page(file_path@, page_offset as int),
    ensures
        records@ == decode_page(disk.page_bytes(file_path@, page_offset as int)),
{
    match disk.read_page(file_path, page_offset) {
        Some(bytes) => decode_page_bytes(bytes),
        None => Vec::new(),
    }
}


/// The records of the first `pages` pages of the file `bytes`, page by page.
pub open spec fn run_pages(bytes: Seq<u8>, pages: nat) -> Seq<Seq<(i64, i64)>> {
    Seq::new(pages, |p: int| decode_page(page_of(bytes, p)))
}

/// The pages of a file that there is to read: the first `total_pages` of the
/// file at `path`, and none where the file does not hold that many.
pub open spec fn pages_on(disk: Map<Seq<char>, Seq<u8>>, path: Seq<char>, total_pages: nat) -> Seq<
    Seq<(i64, i64)>,
> {
    if disk.contains_key(path) && total_pages * 4096 <= disk[path].len() {
        run_pages(disk[path], total_pages)
    } else {
        Seq::empty()
    }
}

/// The pages form a sorted run: none is empty, and the keys rise from each
/// record to the next, within a page and from page to page.
pub open spec fn ascending_run(pages: Seq<Seq<(i64, i64)>>) -> bool {
    &&& forall|p: int| 0 <= p < pages.len() ==> (#[trigger] pages[p]).len() > 0
    &&& forall|p: int| 0 <= p < pages.len() ==> keys_ascend(#[trigger] pages[p])
    &&& forall|p: int, q: int|
        0 <= p < q < pages.len() ==> (#[trigger] pages[p]).last().0 < (#[trigger] pages[q]).first().0
}

/// Some page holds a record with the key `key`.
pub open spec fn in_run(pages: Seq<Seq<(i64, i64)>>, key: i64) -> bool {
    exists|p: int| 0 <= p < pages.len() && has_key(#[trigger] pages[p], key)
}

/// The value under `key` in the run, if a page holds the key.
pub open spec fn run_lookup(pages: Seq<Seq<(i64, i64)>>, key: i64) -> Option<i64> {
    if in_run(pages, key) {
        lookup(pages[choose|p: int| 0 <= p < pages.len() && has_key(#[trigger] pages[p], key)], key)
    } else {
        None
    }
}

/// In a sorted run, a key lies on the one page whose first and last key
/// enclose it.
pub proof fn lemma_run_lookup_at(pages: Seq<Seq<(i64, i64)>>, p: int, key: i64)
    requires
        ascending_run(pages),
        0 <= p < pages.len(),
        pages[p].first().0 <= key <= pages[p].last().0,
    ensures
        run_lookup(pages, key) == lookup(pages[p], key),
{
    if in_run(pages, key) {
        let q = choose|q: int| 0 <= q < pages.len() && has_key(#[trigger] pages[q], key);
        let i = index_of_key(pages[q], key);
        assert(pages[q][i].0 == key);
        if q < p {
            assert(pages[q].last().0 < pages[p].first().0);
            if i < pages[q].len() - 1 {
                assert(pages[q][i].0 < pages[q][pages[q].len() - 1].0);
            }
        }
        if p < q {
            assert(pages[p].last().0 < pages[q].first().0);
            if i > 0 {
                assert(pages[q][0].0 < pages[q][i].0);
            }
        }
    } else {
        assert(!has_key(pages[p], key));
    }
}

/// In a sorted run, a key that precedes the first key of page `p` is on none
/// of the pages from `p` on, and a key that follows the last key of page `p`
/// is on none of the pages up to `p`.
pub proof fn lemma_run_sides(pages: Seq<Seq<(i64, i64)>>, p: int, q: int, key: i64)
    requires
        ascending_run(pages),
        0 <= p < pages.len(),
        0 <= q < pages.len(),
        (key < pages[p].first().0 && p <= q) || (pages[p].last().0 < key && q <= p),
    ensures
        !has_key(pages[q], key),
{
    if has_key(pages[q], key) {
        let i = index_of_key(pages[q], key);
        assert(pages[q][i].0 == key);
        if i > 0 {
            assert(pages[q][0].0 < pages[q][i].0);
        }
        if i < pages[q].len() - 1 {
            assert(pages[q][i].0 < pages[q][pages[q].len() - 1].0);
        }
        if p < q {
            assert(pages[p].last().0 < pages[q].first().0);
            if pages[p].len() > 1 {
                assert(pages[p][0].0 < pages[p][pages[p].len() - 1].0);
            }
        }
        if q < p {
            assert(pages[q].last().0 < pages[p].first().0);
            if pages[p].len() > 1 {
                assert(pages[p][0].0 < pages[p][pages[p].len() - 1].0);
            }
        }
        if p == q && pages[p].len() > 1 {
            assert(pages[p][0].0 < pages[p][pages[p].len() - 1].0);
        }
    }
}

/// The value under `key` in the first `total_pages` pages of the file at
/// `file_path`, which form a sorted run.
pub fn binary_search_file(disk: &Disk, file_path: &str, total_pages: usize, key: i64) -> (value:
    Option<i64>)
    ensures
        ascending_run(pages_on(disk@, file_path@, total_pages as nat)) ==> value == run_lookup(
            pages_on(disk@, file_path@, total_pages as nat),
            key,
        ),
{
    let ghost pages = pages_on(disk@, file_path@, total_pages as nat);
    let file_len: usize = match disk.file_len(file_path) {
        Some(len) => len,
        None => {
            return None;
        },
    };
    if total_pages > file_len / PAGE_SIZE {
        return None;
    }
    if total_pages == 0 {
        return None;
    }
    let ghost bytes = disk@[file_path@];
    assert(total_pages * 4096 <= bytes.len()) by (nonlinear_arith)
        requires
            total_pages <= bytes.len() / 4096,
    ;
    assert(pages == run_pages(bytes, total_pages as nat));
    let mut left: usize = 0;
    let mut right: usize = total_pages;
    while left < right
        invariant
            left <= right <= total_pages,
            disk@.contains_key(file_path@),
            bytes == disk@[file_path@],
            total_pages * 4096 <= bytes.len() <= usize::MAX,
            pages == run_pages(bytes, total_pages as nat),
            ascending_run(pages) ==> forall|p: int|
                0 <= p < left ==> !has_key(#[trigger] pages[p], key),
            ascending_run(pages) ==> forall|p: int|
                right <= p < total_pages ==> !has_key(#[trigger] pages[p], key),
        decreases right - left,
    {
        let mid: usize = left + (right - left) / 2;
        assert(mid * 4096 + 4096 <= bytes.len()) by (nonlinear_arith)
            requires
                mid < total_pages,
                total_pages * 4096 <= bytes.len(),
        ;
        let kv_arr: Vec<(i64, i64)> = deserialize_page(disk, file_path, mid * PAGE_SIZE);
        assert(kv_arr@ == pages[mid as int]);
        if kv_arr.len() == 0 {
            return None;
        }
        let first_key: i64 = kv_arr[0].0;
        let last_key: i64 = kv_arr[kv_arr.len() - 1].0;
        if first_key <= key && key <= last_key {
            proof {
                if ascending_run(pages) {
                    lemma_run_lookup_at(pages, mid as int, key);
                }
            }
            return binary_search_array(&kv_arr, key);
        } else if first_key > key {
            proof {
                if ascending_run(pages) {
                    assert forall|p: int| mid <= p < total_pages implies !has_key(
                        #[trigger] pages[p],
                        key,
                    ) by {
                        lemma_run_sides(pages, mid as int, p, key);
                    }
                }
            }
            right = mid;
        } else {
            proof {
                if ascending_run(pages) {
                    assert forall|p: int| 0 <= p < mid + 1 implies !has_key(
                        #[trigger] pages[p],
                        key,
                    ) by {
                        lemma_run_sides(pages, mid as int, p, key);
                    }
                }
            }
            left = mid + 1;
        }
    }
    None
}

/// The paths of the runs of the database `db_name`, the newest first: as
/// many as there are files in its directory.
pub fn get_sst_names(disk: &Disk, db_name: &str) -> (names: Vec<String>)
    ensures
        names@.len() == disk.count_under(db_prefix_text(db_name@)),
        forall|i: int|
            0 <= i < names@.len() ==> (#[trigger] names@[i])@ == sst_path_text(
                db_name@,
                (names@.len() - 1 - i) as nat,
            ),
{
    let prefix: String = db_prefix(db_name);
    let count: usize = disk.count_prefix(prefix.as_str());
    let mut names: Vec<String> = Vec::with_capacity(count);
    let mut i: usize = 0;
    while i < count
        invariant
            i <= count,
            names@.len() == i,
            forall|k: int|
                0 <= k < i ==> (#[trigger] names@[k])@ == sst_path_text(
                    db_name@,
                    (count - 1 - k) as nat,
                ),
        decreases count - i,
    {
        names.push(sst_path(db_name, count - 1 - i));
        i += 1;
    }
    names
}

/// The number of whole pages of the file `bytes`.
pub open spec fn whole_pages(disk: Map<Seq<char>, Seq<u8>>, path: Seq<char>) -> nat {
    if disk.contains_key(path) {
        (disk[path].len() / 4096) as nat
    } else {
        0
    }
}

/// All whole pages of the file at `path`.
pub open spec fn file_run(disk: Map<Seq<char>, Seq<u8>>, path: Seq<char>) -> Seq<Seq<(i64, i64)>> {
    pages_on(disk, path, whole_pages(disk, path))
}

/// The value under `key` in the newest of the runs `0` to `count - 1` of
/// the database `db` that holds the key.
pub open spec fn newest_value(
    disk: Map<Seq<char>, Seq<u8>>,
    db: Seq<char>,
    count: nat,
    key: i64,
) -> Option<i64>
    decreases count,
{
    if count == 0 {
        None
    } else {
        match run_lookup(file_run(disk, sst_path_text(db, (count - 1) as nat)), key) {
            Some(v) => Some(v),
            None => newest_value(disk, db, (count - 1) as nat, key),
        }
    }
}

/// Every one of the runs `0` to `count - 1` of the database `db` is a
/// sorted run.
pub open spec fn runs_ascend(disk: Map<Seq<char>, Seq<u8>>, db: Seq<char>, count: nat) -> bool {
    forall|i: nat|
        i < count ==> ascending_run(#[trigger] file_run(disk, sst_path_text(db, i)))
}

/// The value under `key` in the runs of the database `db_name`: that of the
/// newest run that holds the key.
pub fn get_value_ssts(disk: &Disk, db_name: &str, key: i64) -> (value: Option<i64>)
    ensures
        runs_ascend(disk@, db_name@, disk.count_under(db_prefix_text(db_name@))) ==> value
            == newest_value(disk@, db_name@, disk.count_under(db_prefix_text(db_name@)), key),
{
    let sst_names: Vec<String> = get_sst_names(disk, db_name);
    let ghost count = sst_names@.len();
    let mut i: usize = 0;
    while i < sst_names.len()
        invariant
            i <= sst_names@.len(),
            count == sst_names@.len(),
            count == disk.count_under(db_prefix_text(db_name@)),
            forall|k: int|
                0 <= k < count ==> (#[trigger] sst_names@[k])@ == sst_path_text(
                    db_name@,
                    (count - 1 - k) as nat,
                ),
            runs_ascend(disk@, db_name@, count) ==> newest_value(disk@, db_name@, count, key)
                == newest_value(disk@, db_name@, (count - i) as nat, key),
        decreases sst_names@.len() - i,
    {
        let name: &str = sst_names[i].as_str();
        let total_pages: usize = disk.page_count(name);
        let value: Option<i64> = binary_search_file(disk, name, total_pages, key);
        proof {
            let path = sst_path_text(db_name@, (count - 1 - i) as nat);
            assert(name@ == path);
            if disk@.contains_key(path) {
                assert(total_pages * 4096 <= disk@[path].len()) by (nonlinear_arith)
                    requires
                        total_pages == disk@[path].len() / 4096,
                ;
            }
            assert(pages_on(disk@, path, total_pages as nat) =~= file_run(disk@, path));
            if runs_ascend(disk@, db_name@, count) {
                assert(ascending_run(file_run(disk@, sst_path_text(db_name@, (count - 1 - i) as nat))));
                assert(value == run_lookup(file_run(disk@, path), key));
                assert(newest_value(disk@, db_name@, (count - i) as nat, key) == match value {
                    Some(v) => Some(v),
                    None => newest_value(disk@, db_name@, (count - i - 1) as nat, key),
                });
            }
        }
        if value.is_some() {
            return value;
        }
        i += 1;
    }
    None
}


/// `map` with the record `r` added, unless `map` holds its key already.
pub open spec fn absorb(map: Map<i64, i64>, r: (i64, i64)) -> Map<i64, i64> {
    if map.contains_key(r.0) {
        map
    } else {
        map.insert(r.0, r.1)
    }
}

/// What a walk through the run leaves in `map`: from record `idx` of page
/// `page` on, each record is added unless `map` holds its key already, until
/// a key exceeds `end` or the run is exhausted.
pub open spec fn scan_pages(
    pages: Seq<Seq<(i64, i64)>>,
    page: int,
    idx: int,
    end: i64,
    map: Map<i64, i64>,
) -> Map<i64, i64>
    decreases pages.len() - page, pages[page].len() - idx,
{
    if page < 0 || page >= pages.len() || idx < 0 {
        map
    } else if idx >= pages[page].len() {
        scan_pages(pages, page + 1, 0, end, map)
    } else if pages[page][idx].0 > end {
        map
    } else {
        scan_pages(pages, page, idx + 1, end, absorb(map, pages[page][idx]))
    }
}

/// Walks through the first `total_pages` pages of the file at `file_path`
/// from record `arr_idx` of page `page_idx` on and adds each record to
/// `kv_hash`, unless `kv_hash` holds its key already, until a key exceeds
/// `end` or the pages are exhausted.
pub fn scan_file(
    disk: &Disk,
    file_path: &str,
    total_pages: usize,
    page_idx: usize,
    arr_idx: usize,
    end: i64,
    kv_hash: &mut HashMap<i64, i64>,
)
    ensures
        final(kv_hash)@ == scan_pages(
            pages_on(disk@, file_path@, total_pages as nat),
            page_idx as int,
            arr_idx as int,
            end,
            old(kv_hash)@,
        ),
{
    let ghost pages = pages_on(disk@, file_path@, total_pages as nat);
    let file_len: usize = match disk.file_len(file_path) {
        Some(len) => len,
        None => {
            return ;
        },
    };
    if total_pages > file_len / PAGE_SIZE {
        assert(total_pages * 4096 > disk@[file_path@].len()) by (nonlinear_arith)
            requires
                total_pages > disk@[file_path@].len() / 4096,
        ;
        return ;
    }
    let ghost bytes = disk@[file_path@];
    assert(total_pages * 4096 <= bytes.len()) by (nonlinear_arith)
        requires
            total_pages <= bytes.len() / 4096,
    ;
    let mut page: usize = page_idx;
    let mut idx: usize = arr_idx;
    while page < total_pages
        invariant
            disk@.contains_key(file_path@),
            bytes == disk@[file_path@],
            total_pages * 4096 <= bytes.len() <= usize::MAX,
            pages == run_pages(bytes, total_pages as nat),
            scan_pages(pages, page_idx as int, arr_idx as int, end, old(kv_hash)@) == scan_pages(
                pages,
                page as int,
                idx as int,
                end,
                kv_hash@,
            ),
        decreases total_pages - page,
    {
        assert(page * 4096 + 4096 <= bytes.len()) by (nonlinear_arith)
            requires
                page < total_pages,
                total_pages * 4096 <= bytes.len(),
        ;
        let kv_arr: Vec<(i64, i64)> = deserialize_page(disk, file_path, page * PAGE_SIZE);
        assert(kv_arr@ == pages[page as int]);
        while idx < kv_arr.len() && kv_arr[idx].0 <= end
            invariant
                page < total_pages,
                pages.len() == total_pages,
                kv_arr@ == pages[page as int],
                scan_pages(pages, page_idx as int, arr_idx as int, end, old(kv_hash)@)
                    == scan_pages(pages, page as int, idx as int, end, kv_hash@),
            decreases kv_arr@.len() - idx,
        {
            insert_if_absent(kv_hash, kv_arr[idx].0, kv_arr[idx].1);
            idx += 1;
        }
        if idx < kv_arr.len() {
            return ;
        }
        idx = 0;
        page += 1;
    }
}

/// The number of pages of the run whose last key is below `start`.
pub open spec fn pages_below(pages: Seq<Seq<(i64, i64)>>, start: i64) -> nat
    decreases pages.len(),
{
    if pages.len() == 0 {
        0
    } else {
        pages_below(pages.drop_last(), start) + if pages.last().last().0 < start {
            1nat
        } else {
            0nat
        }
    }
}

/// A sorted run without its last page is a sorted run.
pub proof fn lemma_ascending_front(pages: Seq<Seq<(i64, i64)>>)
    requires
        ascending_run(pages),
        pages.len() > 0,
    ensures
        ascending_run(pages.drop_last()),
{
    let front = pages.drop_last();
    assert forall|p: int| 0 <= p < front.len() implies (#[trigger] front[p]).len() > 0
        && keys_ascend(front[p]) by {
        assert(front[p] == pages[p]);
    }
    assert forall|p: int, q: int| 0 <= p < q < front.len() implies (#[trigger] front[p]).last().0 < (
    #[trigger] front[q]).first().0 by {
        assert(front[p] == pages[p] && front[q] == pages[q]);
    }
}

/// The last key of a page of a sorted run is below the last key of each
/// later page.
pub proof fn lemma_last_keys_rise(pages: Seq<Seq<(i64, i64)>>, p: int, q: int)
    requires
        ascending_run(pages),
        0 <= p < q < pages.len(),
    ensures
        pages[p].last().0 < pages[q].last().0,
{
    assert(pages[p].last().0 < pages[q].first().0);
    if pages[q].len() > 1 {
        assert(pages[q][0].0 < pages[q][pages[q].len() - 1].0);
    }
}

/// In a sorted run, the pages whose last key is below `start` are the first
/// `pages_below` ones.
pub proof fn lemma_pages_below(pages: Seq<Seq<(i64, i64)>>, start: i64)
    requires
        ascending_run(pages),
    ensures
        pages_below(pages, start) <= pages.len(),
        forall|p: int| 0 <= p < pages_below(pages, start) ==> (#[trigger] pages[p]).last().0 < start,
        forall|p: int|
            pages_below(pages, start) <= p < pages.len() ==> (#[trigger] pages[p]).last().0
                >= start,
    decreases pages.len(),
{
    if pages.len() > 0 {
        let front = pages.drop_last();
        lemma_ascending_front(pages);
        lemma_pages_below(front, start);
        let last = pages.len() - 1;
        assert forall|p: int| 0 <= p < pages_below(pages, start) implies (
        #[trigger] pages[p]).last().0 < start by {
            if p < last {
                assert(front[p] == pages[p]);
                if pages.last().last().0 < start {
                    lemma_last_keys_rise(pages, p, last);
                }
            }
        }
        assert forall|p: int| pages_below(pages, start) <= p < pages.len() implies (
        #[trigger] pages[p]).last().0 >= start by {
            if p < last {
                assert(front[p] == pages[p]);
                if pages.last().last().0 < start {
                    let c = pages_below(front, start) as int;
                    assert(c <= p);
                    lemma_last_keys_rise(pages, p, last);
                }
            }
        }
    }
}

/// The place that splits a sorted run into pages whose last key is below
/// `start` and the others is the count of the former.
pub proof fn lemma_pages_below_is(pages: Seq<Seq<(i64, i64)>>, start: i64, at: int)
    requires
        ascending_run(pages),
        0 <= at <= pages.len(),
        forall|p: int| 0 <= p < at ==> (#[trigger] pages[p]).last().0 < start,
        forall|p: int| at <= p < pages.len() ==> (#[trigger] pages[p]).last().0 >= start,
    ensures
        pages_below(pages, start) == at,
{
    lemma_pages_below(pages, start);
    let c = pages_below(pages, start) as int;
    if c < at {
        assert(pages[c].last().0 >= start);
    }
    if at < c {
        assert(pages[at].last().0 < start);
    }
}

/// Where a scan of the run for the keys from `start` to `end` begins: at the
/// first record whose key is at least `start`. There is no such place where
/// all keys are below `start`, nor where `start` precedes the first key and
/// the first key exceeds `end`.
pub open spec fn start_position(pages: Seq<Seq<(i64, i64)>>, start: i64, end: i64) -> (
    Option<usize>,
    Option<usize>,
) {
    if pages.len() == 0 {
        (None, None)
    } else if start < pages[0].first().0 {
        if pages[0].first().0 <= end {
            (Some(0), Some(0))
        } else {
            (None, None)
        }
    } else if pages_below(pages, start) < pages.len() {
        (
            Some(pages_below(pages, start) as usize),
            Some(count_below(pages[pages_below(pages, start) as int], start) as usize),
        )
    } else {
        (None, None)
    }
}

/// The page and the index in that page of the first record, among the first
/// `total_pages` pages of the file at `file_path`, whose key is at least
/// `start`; nothing where there is no such record, nor where `start` precedes
/// the first key and the first key exceeds `end`.
pub fn binary_search_sst_start_index(
    disk: &Disk,
    file_path: &str,
    total_pages: &usize,
    start: i64,
    end: i64,
) -> (position: (Option<usize>, Option<usize>))
    ensures
        ascending_run(pages_on(disk@, file_path@, *total_pages as nat)) ==> position
            == start_position(pages_on(disk@, file_path@, *total_pages as nat), start, end),
{
    let total: usize = *total_pages;
    let ghost pages = pages_on(disk@, file_path@, total as nat);
    let file_len: usize = match disk.file_len(file_path) {
        Some(len) => len,
        None => {
            return (None, None);
        },
    };
    if total > file_len / PAGE_SIZE {
        assert(total * 4096 > disk@[file_path@].len()) by (nonlinear_arith)
            requires
                total > disk@[file_path@].len() / 4096,
        ;
        return (None, None);
    }
    if total == 0 {
        return (None, None);
    }
    let ghost bytes = disk@[file_path@];
    assert(total * 4096 <= bytes.len()) by (nonlinear_arith)
        requires
            total <= bytes.len() / 4096,
    ;
    let first_page_arr: Vec<(i64, i64)> = deserialize_page(disk, file_path, 0);
    assert(first_page_arr@ == pages[0]);
    if first_page_arr.len() == 0 {
        return (None, None);
    }
    if start < first_page_arr[0].0 {
        if first_page_arr[0].0 <= end {
            return (Some(0), Some(0));
        } else {
            return (None, None);
        }
    }
    let mut left: usize = 0;
    let mut right: usize = total;
    while left < right
        invariant
            left <= right <= total,
            total == *total_pages,
            disk@.contains_key(file_path@),
            bytes == disk@[file_path@],
            total * 4096 <= bytes.len() <= usize::MAX,
            pages == run_pages(bytes, total as nat),
            ascending_run(pages) ==> forall|p: int|
                0 <= p < left ==> (#[trigger] pages[p]).last().0 < start,
            ascending_run(pages) ==> forall|p: int|
                right <= p < total ==> (#[trigger] pages[p]).last().0 >= start,
        decreases right - left,
    {
        let mid: usize = left + (right - left) / 2;
        assert(mid * 4096 + 4096 <= bytes.len()) by (nonlinear_arith)
            requires
                mid < total,
                total * 4096 <= bytes.len(),
        ;
        let kv_arr: Vec<(i64, i64)> = deserialize_page(disk, file_path, mid * PAGE_SIZE);
        assert(kv_arr@ == pages[mid as int]);
        if kv_arr.len() == 0 {
            proof {
                if ascending_run(pages) {
                    assert(pages[mid as int].len() > 0);
                }
            }
            return (None, None);
        }
        if kv_arr[kv_arr.len() - 1].0 >= start {
            proof {
                if ascending_run(pages) {
                    assert forall|p: int| mid <= p < total implies (
                    #[trigger] pages[p]).last().0 >= start by {
                        if mid < p {
                            lemma_last_keys_rise(pages, mid as int, p);
                        }
                    }
                }
            }
            right = mid;
        } else {
            proof {
                if ascending_run(pages) {
                    assert forall|p: int| 0 <= p < mid + 1 implies (#[trigger] pages[p]).last().0
                        < start by {
                        if p < mid {
                            lemma_last_keys_rise(pages, p, mid as int);
                        }
                    }
                }
            }
            left = mid + 1;
        }
    }
    proof {
        if ascending_run(pages) {
            lemma_pages_below_is(pages, start, left as int);
        }
    }
    if left == total {
        return (None, None);
    }
    assert(left * 4096 + 4096 <= bytes.len()) by (nonlinear_arith)
        requires
            left < total,
            total * 4096 <= bytes.len(),
    ;
    let kv_arr: Vec<(i64, i64)> = deserialize_page(disk, file_path, left * PAGE_SIZE);
    assert(kv_arr@ == pages[left as int]);
    proof {
        if ascending_run(pages) {
            lemma_count_below(kv_arr@, start);
            assert(pages[left as int].last().0 >= start);
            let c = count_below(kv_arr@, start) as int;
            if c >= kv_arr@.len() {
                assert(kv_arr@[kv_arr@.len() - 1].0 < start);
            }
        }
    }
    match binary_search_array_start_index(&kv_arr, start) {
        Some(arr_idx) => (Some(left), Some(arr_idx)),
        None => (None, None),
    }
}


/// What a scan of one run for the keys from `start` to `end` leaves in `map`.
pub open spec fn scan_run(pages: Seq<Seq<(i64, i64)>>, start: i64, end: i64, map: Map<i64, i64>) -> Map<
    i64,
    i64,
> {
    match start_position(pages, start, end) {
        (Some(page), Some(idx)) => scan_pages(pages, page as int, idx as int, end, map),
        _ => map,
    }
}

/// What a scan of the runs `0` to `count - 1` of the database `db` for the
/// keys from `start` to `end` leaves in `map`: the runs are scanned one
/// after the other, from the newest on.
pub open spec fn scan_runs(
    disk: Map<Seq<char>, Seq<u8>>,
    db: Seq<char>,
    count: nat,
    start: i64,
    end: i64,
    map: Map<i64, i64>,
) -> Map<i64, i64>
    decreases count,
{
    if count == 0 {
        map
    } else {
        scan_runs(
            disk,
            db,
            (count - 1) as nat,
            start,
            end,
            scan_run(file_run(disk, sst_path_text(db, (count - 1) as nat)), start, end, map),
        )
    }
}

/// Adds to `kv_hash` the records of the runs of the database `db_name` whose
/// keys lie from `start` to `end`, both included, the newest run first,
/// except under keys that `kv_hash` holds already.
pub fn scan_ssts(disk: &Disk, db_name: &str, start: i64, end: i64, kv_hash: &mut HashMap<i64, i64>)
    ensures
        runs_ascend(disk@, db_name@, disk.count_under(db_prefix_text(db_name@))) ==> final(kv_hash)@
            == scan_runs(
            disk@,
            db_name@,
            disk.count_under(db_prefix_text(db_name@)),
            start,
            end,
            old(kv_hash)@,
        ),
{
    let sst_names: Vec<String> = get_sst_names(disk, db_name);
    let ghost count = sst_names@.len();
    let ghost want = scan_runs(disk@, db_name@, count, start, end, old(kv_hash)@);
    let mut i: usize = 0;
    while i < sst_names.len()
        invariant
            i <= sst_names@.len(),
            count == sst_names@.len(),
            count == disk.count_under(db_prefix_text(db_name@)),
            forall|k: int|
                0 <= k < count ==> (#[trigger] sst_names@[k])@ == sst_path_text(
                    db_name@,
                    (count - 1 - k) as nat,
                ),
            want == scan_runs(disk@, db_name@, count, start, end, old(kv_hash)@),
            runs_ascend(disk@, db_name@, count) ==> want == scan_runs(
                disk@,
                db_name@,
                (count - i) as nat,
                start,
                end,
                kv_hash@,
            ),
        decreases sst_names@.len() - i,
    {
        let name: &str = sst_names[i].as_str();
        let total_pages: usize = disk.page_count(name);
        let ghost before = kv_hash@;
        let ghost path = sst_path_text(db_name@, (count - 1 - i) as nat);
        proof {
            assert(name@ == path);
            if disk@.contains_key(path) {
                assert(total_pages * 4096 <= disk@[path].len()) by (nonlinear_arith)
                    requires
                        total_pages == disk@[path].len() / 4096,
                ;
            }
            assert(pages_on(disk@, path, total_pages as nat) =~= file_run(disk@, path));
            if runs_ascend(disk@, db_name@, count) {
                assert(ascending_run(file_run(disk@, sst_path_text(db_name@, (count - 1 - i) as nat))));
            }
        }
        if let (Some(page_idx), Some(arr_idx)) = binary_search_sst_start_index(
            disk,
            name,
            &total_pages,
            start,
            end,
        ) {
            scan_file(disk, name, total_pages, page_idx, arr_idx, end, kv_hash);
        }
        proof {
            if runs_ascend(disk@, db_name@, count) {
                assert(kv_hash@ == scan_run(file_run(disk@, path), start, end, before));
                assert(scan_runs(disk@, db_name@, (count - i) as nat, start, end, before)
                    == scan_runs(disk@, db_name@, (count - i - 1) as nat, start, end, kv_hash@));
            }
        }
        i += 1;
    }
}


/// The pages of the image of a run that can be read back are the pages of
/// the run.
pub proof fn lemma_run_of_image(records: Seq<(i64, i64)>)
    requires
        storable(records),
    ensures
        pages_image(records).len() == 4096 * page_count(records.len()),
        run_pages(pages_image(records), page_count(records.len())) == chunks(records),
{
    lemma_image_pages(records);
    assert(run_pages(pages_image(records), page_count(records.len())) =~= chunks(records));
}

/// Record `i` of page `p` of a run is record `256 * p + i` of the run.
pub proof fn lemma_chunk_at(records: Seq<(i64, i64)>, p: int, i: int)
    requires
        0 <= p < page_count(records.len()),
        0 <= i < chunk(records, p).len(),
    ensures
        1 <= chunk(records, p).len() <= 256,
        256 * p + i < records.len(),
        chunk(records, p)[i] == records[256 * p + i],
        p + 1 < page_count(records.len()) ==> chunk(records, p).len() == 256,
{
}

/// The pages of a sorted run form a sorted run.
pub proof fn lemma_chunks_ascend(records: Seq<(i64, i64)>)
    requires
        keys_ascend(records),
    ensures
        ascending_run(chunks(records)),
{
    let pages = chunks(records);
    assert forall|p: int| 0 <= p < pages.len() implies (#[trigger] pages[p]).len() > 0
        && keys_ascend(pages[p]) by {
        lemma_chunk_at(records, p, 0);
        assert forall|i: int, j: int| 0 <= i < j < pages[p].len() implies pages[p][i].0
            < pages[p][j].0 by {
            lemma_chunk_at(records, p, i);
            lemma_chunk_at(records, p, j);
        }
    }
    assert forall|p: int, q: int| 0 <= p < q < pages.len() implies (#[trigger] pages[p]).last().0 < (
    #[trigger] pages[q]).first().0 by {
        lemma_chunk_at(records, p, 0);
        lemma_chunk_at(records, p, pages[p].len() - 1);
        lemma_chunk_at(records, q, 0);
    }
}

/// A lookup in the pages of a sorted run is a lookup in the run.
pub proof fn lemma_chunks_lookup(records: Seq<(i64, i64)>, key: i64)
    requires
        keys_ascend(records),
    ensures
        run_lookup(chunks(records), key) == lookup(records, key),
{
    let pages = chunks(records);
    lemma_chunks_ascend(records);
    if has_key(records, key) {
        let at = index_of_key(records, key);
        lemma_entry_at(records, at);
        let p = at / 256;
        let i = at % 256;
        assert(0 <= p < page_count(records.len()));
        lemma_chunk_at(records, p, 0);
        assert(i < pages[p].len());
        lemma_chunk_at(records, p, i);
        assert(pages[p][i].0 == key);
        assert(has_key(pages[p], key));
        let q = choose|q: int| 0 <= q < pages.len() && has_key(#[trigger] pages[q], key);
        let j = index_of_key(pages[q], key);
        lemma_chunk_at(records, q, j);
        lemma_entry_at(pages[q], j);
        assert(records[256 * q + j].0 == key);
        if 256 * q + j < at {
            assert(records[256 * q + j].0 < records[at].0);
        }
        if at < 256 * q + j {
            assert(records[at].0 < records[256 * q + j].0);
        }
    } else {
        if in_run(pages, key) {
            let q = choose|q: int| 0 <= q < pages.len() && has_key(#[trigger] pages[q], key);
            let j = index_of_key(pages[q], key);
            lemma_chunk_at(records, q, j);
            assert(records[256 * q + j].0 == key);
        }
    }
}

/// The records that the runs `0` to `count - 1` of the database `db` hold,
/// as a map: under each key the value of the newest run that holds it.
pub open spec fn stored(disk: Map<Seq<char>, Seq<u8>>, db: Seq<char>, count: nat) -> Map<i64, i64>
    decreases count,
{
    if count == 0 {
        Map::empty()
    } else {
        let pages = file_run(disk, sst_path_text(db, (count - 1) as nat));
        stored(disk, db, (count - 1) as nat).union_prefer_right(
            Map::new(|k: i64| in_run(pages, k), |k: i64| run_lookup(pages, k)->0),
        )
    }
}

/// The value of the newest run that holds a key is the value that the map
/// of the runs has under it.
pub proof fn lemma_newest_value(
    disk: Map<Seq<char>, Seq<u8>>,
    db: Seq<char>,
    count: nat,
    key: i64,
)
    ensures
        newest_value(disk, db, count, key) == if stored(disk, db, count).contains_key(key) {
            Some(stored(disk, db, count)[key])
        } else {
            None
        },
    decreases count,
{
    if count > 0 {
        lemma_newest_value(disk, db, (count - 1) as nat, key);
        let pages = file_run(disk, sst_path_text(db, (count - 1) as nat));
        if in_run(pages, key) {
            let p = choose|p: int| 0 <= p < pages.len() && has_key(#[trigger] pages[p], key);
            assert(run_lookup(pages, key) == lookup(pages[p], key));
        }
    }
}


/// The directory of the database `db` holds the runs `0` to `runs - 1` and
/// no other file.
pub open spec fn dir_ok(disk: &Disk, db: Seq<char>, runs: nat) -> bool {
    &&& runs == disk.count_under(db_prefix_text(db))
    &&& forall|i: int|
        0 <= i < disk.names().len() && has_prefix(#[trigger] disk.names()[i], db_prefix_text(db))
            ==> exists|j: nat| j < runs && disk.names()[i] == #[trigger] sst_path_text(db, j)
}

/// The count of the names with a prefix among the first `n` names does not
/// depend on the names after them.
pub proof fn lemma_count_prefixed_front(
    names: Seq<Seq<char>>,
    more: Seq<Seq<char>>,
    prefix: Seq<char>,
    n: nat,
)
    requires
        n <= names.len(),
        names.len() <= more.len(),
        forall|i: int| 0 <= i < names.len() ==> names[i] == more[i],
    ensures
        count_prefixed(more, prefix, n) == count_prefixed(names, prefix, n),
    decreases n,
{
    if n > 0 {
        lemma_count_prefixed_front(names, more, prefix, (n - 1) as nat);
    }
}

/// What a new run does to the directory of a database and to its other
/// runs: it is run number `runs`, and the runs before it stay as they are.
pub proof fn lemma_dir_after_append(before: &Disk, after: &Disk, db: Seq<char>, runs: nat, added: Seq<u8>)
    requires
        dir_ok(before, db, runs),
        forall|n: Seq<char>| before@.contains_key(n) <==> before.names().contains(n),
        after@ == appended(before@, sst_path_text(db, runs), added),
        after.names() == if before@.contains_key(sst_path_text(db, runs)) {
            before.names()
        } else {
            before.names().push(sst_path_text(db, runs))
        },
    ensures
        dir_ok(after, db, runs + 1),
        !before@.contains_key(sst_path_text(db, runs)),
        after@[sst_path_text(db, runs)] == added,
        forall|j: nat|
            j < runs ==> file_run(after@, #[trigger] sst_path_text(db, j)) == file_run(
                before@,
                sst_path_text(db, j),
            ),
{
    let prefix = db_prefix_text(db);
    let path = sst_path_text(db, runs);
    let names = before.names();
    lemma_sst_paths(db, runs, runs);
    assert(has_prefix(path, prefix));
    if before@.contains_key(path) {
        assert(names.contains(path));
        let i = choose|i: int| 0 <= i < names.len() && names[i] == path;
        assert(has_prefix(names[i], prefix));
        let j = choose|j: nat| j < runs && names[i] == #[trigger] sst_path_text(db, j);
        lemma_sst_paths(db, j, runs);
        assert(false);
    }
    let more = after.names();
    assert(more == names.push(path));
    lemma_count_prefixed_front(names, more, prefix, names.len());
    assert(count_prefixed(more, prefix, more.len()) == count_prefixed(more, prefix, names.len())
        + 1);
    assert forall|i: int|
        0 <= i < more.len() && has_prefix(#[trigger] more[i], prefix) implies exists|j: nat|
        j < runs + 1 && more[i] == #[trigger] sst_path_text(db, j) by {
        if i < names.len() {
            assert(more[i] == names[i]);
            let j = choose|j: nat| j < runs && names[i] == #[trigger] sst_path_text(db, j);
            assert(j < runs + 1 && more[i] == sst_path_text(db, j));
        } else {
            assert(more[i] == sst_path_text(db, runs));
        }
    }
    assert forall|j: nat| j < runs implies file_run(after@, #[trigger] sst_path_text(db, j))
        == file_run(before@, sst_path_text(db, j)) by {
        lemma_sst_paths(db, j, runs);
    }
}

/// The map of the runs `0` to `count - 1` depends on these runs only.
pub proof fn lemma_stored_frame(
    before: Map<Seq<char>, Seq<u8>>,
    after: Map<Seq<char>, Seq<u8>>,
    db: Seq<char>,
    count: nat,
)
    requires
        forall|j: nat|
            j < count ==> file_run(after, #[trigger] sst_path_text(db, j)) == file_run(
                before,
                sst_path_text(db, j),
            ),
    ensures
        stored(after, db, count) == stored(before, db, count),
    decreases count,
{
    if count > 0 {
        lemma_stored_frame(before, after, db, (count - 1) as nat);
        assert(file_run(after, sst_path_text(db, (count - 1) as nat)) == file_run(
            before,
            sst_path_text(db, (count - 1) as nat),
        ));
    }
}

/// The pages of a sorted run hold the records of the run: as a map, they
/// are the map of the records.
pub proof fn lemma_chunks_map(records: Seq<(i64, i64)>)
    requires
        keys_ascend(records),
    ensures
        Map::new(
            |k: i64| in_run(chunks(records), k),
            |k: i64| run_lookup(chunks(records), k)->0,
        ) == entries_map(records),
{
    let pages = chunks(records);
    let held = Map::new(|k: i64| in_run(pages, k), |k: i64| run_lookup(pages, k)->0);
    assert forall|k: i64| held.contains_key(k) == entries_map(records).contains_key(k) by {
        lemma_chunks_lookup(records, k);
        if in_run(pages, k) {
            let p = choose|p: int| 0 <= p < pages.len() && has_key(#[trigger] pages[p], k);
            assert(run_lookup(pages, k) == lookup(pages[p], k));
        }
    }
    assert forall|k: i64| held.contains_key(k) implies held[k] == entries_map(records)[k] by {
        lemma_chunks_lookup(records, k);
    }
    assert(held =~= entries_map(records));
}

/// The file that a flush of the records `records` makes is a sorted run of
/// these records, where the records are sorted and can be read back.
pub proof fn lemma_fresh_run(disk: Map<Seq<char>, Seq<u8>>, path: Seq<char>, records: Seq<(i64, i64)>)
    requires
        disk.contains_key(path),
        disk[path] == pages_image(records),
        keys_ascend(records),
        storable(records),
    ensures
        file_run(disk, path) == chunks(records),
        ascending_run(file_run(disk, path)),
{
    lemma_run_of_image(records);
    lemma_chunks_ascend(records);
    assert(whole_pages(disk, path) == page_count(records.len()));
    assert(file_run(disk, path) =~= chunks(records));
}


/// The pages are those of the sorted records `records`.
pub open spec fn run_of(pages: Seq<Seq<(i64, i64)>>, records: Seq<(i64, i64)>) -> bool {
    keys_ascend(records) && records.len() <= usize::MAX && pages == chunks(records)
}

/// Every one of the runs `0` to `count - 1` of the database `db` holds the
/// pages of sorted records.
pub open spec fn runs_built(disk: Map<Seq<char>, Seq<u8>>, db: Seq<char>, count: nat) -> bool {
    forall|i: nat| i < count ==> is_run(#[trigger] file_run(disk, sst_path_text(db, i)))
}

/// The pages are those of some sorted records.
pub open spec fn is_run(pages: Seq<Seq<(i64, i64)>>) -> bool {
    exists|records: Seq<(i64, i64)>| run_of(pages, records)
}

/// Runs that hold the pages of sorted records are sorted runs.
pub proof fn lemma_runs_built(disk: Map<Seq<char>, Seq<u8>>, db: Seq<char>, count: nat)
    requires
        runs_built(disk, db, count),
    ensures
        runs_ascend(disk, db, count),
{
    assert forall|i: nat| i < count implies ascending_run(
        #[trigger] file_run(disk, sst_path_text(db, i)),
    ) by {
        let pages = file_run(disk, sst_path_text(db, i));
        let records = choose|records: Seq<(i64, i64)>| run_of(pages, records);
        lemma_chunks_ascend(records);
    }
}

} // verus!
