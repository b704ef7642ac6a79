//! Merging two sorted runs into one: the records of both in ascending order
//! of key, and of two records with the same key the newer one.

use crate::buffer::{BufferPool, CacheEntry, coherent, holds, names_within};
use crate::disk::Disk;
use crate::filter::{Bitmap, BloomFilter, filter_bits, key_bits};
use crate::page::{PAGE_SIZE, chunk, chunks, page_count, pages_image};
use crate::records::{entries_map, has_key, index_of_key, keys_ascend, lemma_entry_at};
use crate::sst::{appended, file_run, run_pages, serialize_kv_to_file};
use crate::storage::btree::{images, lemma_appended_twice, pages_to_read, readable};
use vstd::prelude::*;

verus! {

/// The records of the pages, one page after the other.
pub open spec fn flat(pages: Seq<Seq<(i64, i64)>>) -> Seq<(i64, i64)>
    decreases pages.len(),
{
    if pages.len() == 0 {
        Seq::empty()
    } else {
        pages[0] + flat(pages.skip(1))
    }
}

/// The two sorted runs merged: ascending by key, and where both hold a key,
/// the record of `newer` only.
pub open spec fn merge_newer(older: Seq<(i64, i64)>, newer: Seq<(i64, i64)>) -> Seq<(i64, i64)>
    decreases older.len() + newer.len(),
{
    if older.len() == 0 {
        newer
    } else if newer.len() == 0 {
        older
    } else if older[0].0 < newer[0].0 {
        seq![older[0]] + merge_newer(older.skip(1), newer)
    } else if older[0].0 > newer[0].0 {
        seq![newer[0]] + merge_newer(older, newer.skip(1))
    } else {
        seq![newer[0]] + merge_newer(older.skip(1), newer.skip(1))
    }
}

/// No key is a key of both runs.
pub open spec fn keys_apart(one: Seq<(i64, i64)>, other: Seq<(i64, i64)>) -> bool {
    forall|k: i64| has_key(one, k) ==> !has_key(other, k)
}

/// The merge of two sorted runs holds the keys of both, and where no key
/// is a key of both, as many records as the two together.
pub proof fn lemma_merge_len(older: Seq<(i64, i64)>, newer: Seq<(i64, i64)>)
    requires
        keys_ascend(older),
        keys_ascend(newer),
    ensures
        forall|k: i64|
            has_key(merge_newer(older, newer), k) <==> has_key(older, k) || has_key(newer, k),
        keys_apart(older, newer) ==> merge_newer(older, newer).len() == older.len() + newer.len(),
    decreases older.len() + newer.len(),
{
    let m = merge_newer(older, newer);
    lemma_merge_newer(older, newer);
    assert forall|k: i64| has_key(m, k) <==> has_key(older, k) || has_key(newer, k) by {
        assert(entries_map(m).contains_key(k) == has_key(m, k));
        assert(entries_map(older).contains_key(k) == has_key(older, k));
        assert(entries_map(newer).contains_key(k) == has_key(newer, k));
    }
    if older.len() > 0 && newer.len() > 0 && keys_apart(older, newer) {
        lemma_skip_first(older);
        lemma_skip_first(newer);
        assert(has_key(older, older[0].0));
        assert(has_key(newer, newer[0].0));
        if older[0].0 < newer[0].0 {
            assert(keys_apart(older.skip(1), newer));
            lemma_merge_len(older.skip(1), newer);
        } else {
            assert(older[0].0 > newer[0].0);
            assert(keys_apart(older, newer.skip(1)));
            lemma_merge_len(older, newer.skip(1));
        }
    }
}

/// No entry of `view` is for a page of the file `name`.
pub open spec fn avoids(view: Seq<CacheEntry>, name: Seq<char>) -> bool {
    forall|i: int| 0 <= i < view.len() ==> (#[trigger] view[i]).name != name
}

/// A cache that holds no page of a file stays in step with the disk when
/// that file grows.
pub proof fn lemma_append_keeps_coherent(
    view: Seq<CacheEntry>,
    before: Disk,
    after: Disk,
    path: Seq<char>,
    added: Seq<u8>,
)
    requires
        coherent(view, before),
        avoids(view, path),
        after@ == appended(before@, path, added),
    ensures
        coherent(view, after),
{
    assert forall|i: int|
        0 <= i < view.len() && after.has_page(
            (#[trigger] view[i]).name,
            view[i].offset as int,
        ) implies view[i].page == crate::page::decode_page(
        after.page_bytes(view[i].name, view[i].offset as int),
    ) by {
        assert(view[i].name != path);
        assert(before.has_page(view[i].name, view[i].offset as int));
    }
}

/// Where a reader of a run stands: the records of the page that it holds,
/// the place of the next record among them, and the number of the page that
/// it reads next.
pub struct Cursor {
    records: Vec<(i64, i64)>,
    pos: usize,
    page: usize,
}

impl Cursor {
    /// The records that are still to come, on the pages `pages`.
    pub closed spec fn remaining(&self, pages: Seq<Seq<(i64, i64)>>) -> Seq<(i64, i64)> {
        self.records@.skip(self.pos as int) + flat(pages.skip(self.page as int))
    }

    /// The place of the next record lies within the page held.
    pub closed spec fn wf(&self) -> bool {
        self.pos <= self.records@.len()
    }

    /// The number of pages read so far.
    pub closed spec fn pages_read(&self) -> nat {
        self.page as nat
    }

    /// The number of records that are left on the page held.
    pub closed spec fn left_on_page(&self) -> nat {
        (self.records@.len() - self.pos) as nat
    }

    /// A reader at the start of a run.
    pub fn new() -> (cursor: Self)
        ensures
            cursor.wf(),
            cursor.pages_read() == 0,
            forall|pages: Seq<Seq<(i64, i64)>>| #[trigger] cursor.remaining(pages) == flat(pages),
    {
        let cursor = Cursor { records: Vec::new(), pos: 0, page: 0 };
        assert forall|pages: Seq<Seq<(i64, i64)>>| #[trigger]
            cursor.remaining(pages) == flat(pages) by {
            assert(pages.skip(0) =~= pages);
            assert(cursor.records@.skip(0) + flat(pages) =~= flat(pages));
        }
        cursor
    }

    /// The next record of the first `total` pages of the file `path`, if any
    /// is left. Pages are read through `pool` as they are needed.
    pub fn peek(
        &mut self,
        disk: &Disk,
        pool: &mut BufferPool,
        path: &str,
        total: usize,
    ) -> (next: Option<(i64, i64)>)
        requires
            old(self).wf(),
            old(self).pages_read() <= total,
            old(pool).wf(),
            total > 0 ==> readable(disk, path@, total as nat),
        ensures
            final(self).wf(),
            final(self).pages_read() <= total,
            final(self).pages_read() >= old(self).pages_read(),
            final(self).pages_read() == old(self).pages_read() ==> final(self).left_on_page() == old(
                self,
            ).left_on_page(),
            next is Some ==> final(self).left_on_page() > 0,
            final(pool).wf(),
            final(pool).capacity() == old(pool).capacity(),
            coherent(old(pool)@, *disk) ==> coherent(final(pool)@, *disk),
            forall|name: Seq<char>|
                name != path@ && avoids(old(pool)@, name) ==> avoids(final(pool)@, name),
            forall|names: Set<Seq<char>>|
                #![trigger names_within(old(pool)@, names)]
                names_within(old(pool)@, names) && names.contains(path@) ==> names_within(
                    final(pool)@,
                    names,
                ),
            coherent(old(pool)@, *disk) ==> final(self).remaining(
                run_pages(disk@[path@], total as nat),
            ) == old(self).remaining(run_pages(disk@[path@], total as nat)),
            coherent(old(pool)@, *disk) ==> match next {
                Some(r) => final(self).remaining(run_pages(disk@[path@], total as nat)).len() > 0
                    && final(self).remaining(run_pages(disk@[path@], total as nat))[0] == r,
                None => final(self).remaining(run_pages(disk@[path@], total as nat)).len() == 0,
            },
    {
        let ghost pages = run_pages(disk@[path@], total as nat);
        let ghost ok = coherent(old(pool)@, *disk);
        while self.pos >= self.records.len() && self.page < total
            invariant
                self.wf(),
                self.page <= total,
                self.page >= old(self).page,
                self.page == old(self).page ==> self.records == old(self).records && self.pos == old(
                    self,
                ).pos,
                pool.wf(),
                pool.capacity() == old(pool).capacity(),
                total > 0 ==> readable(disk, path@, total as nat),
                pages == run_pages(disk@[path@], total as nat),
                ok == coherent(old(pool)@, *disk),
                ok ==> coherent(pool@, *disk),
                forall|name: Seq<char>|
                    name != path@ && avoids(old(pool)@, name) ==> avoids(pool@, name),
                forall|names: Set<Seq<char>>|
                    #![trigger names_within(old(pool)@, names)]
                    names_within(old(pool)@, names) && names.contains(path@) ==> names_within(
                        pool@,
                        names,
                    ),
                ok ==> self.remaining(pages) == old(self).remaining(pages),
            decreases total - self.page,
        {
            assert(self.page * 4096 + 4096 <= disk@[path@].len()) by (nonlinear_arith)
                requires
                    self.page < total,
                    total * 4096 <= disk@[path@].len(),
            ;
            let ghost before = *self;
            let ghost view_before = pool@;
            let records: Vec<(i64, i64)> = pool.find_page(disk, path, self.page * PAGE_SIZE);
            proof {
                lemma_read_avoids(view_before, pool.capacity(), path@, (self.page * 4096) as nat, records@, pool@);
            }
            self.records = records;
            self.pos = 0;
            self.page = self.page + 1;
            proof {
                if ok {
                    let rest = pages.skip(before.page as int);
                    assert(rest[0] == pages[before.page as int]);
                    assert(rest.skip(1) =~= pages.skip(before.page + 1));
                    assert(before.records@.skip(before.pos as int) =~= Seq::<(i64, i64)>::empty());
                    assert(self.records@.skip(0) =~= self.records@);
                    assert(self.remaining(pages) =~= before.remaining(pages));
                }
            }
        }
        if self.pos < self.records.len() {
            proof {
                assert(self.records@.skip(self.pos as int)[0] == self.records@[self.pos as int]);
            }
            Some(self.records[self.pos])
        } else {
            proof {
                assert(pages.skip(self.page as int).len() == 0);
            }
            None
        }
    }

    /// Passes over the next record.
    pub fn advance(&mut self)
        requires
            old(self).wf(),
        ensures
            final(self).wf(),
            final(self).pages_read() == old(self).pages_read(),
            old(self).left_on_page() > 0 ==> final(self).left_on_page() == old(self).left_on_page()
                - 1,
            old(self).left_on_page() > 0 ==> old(self).holds_next(),
            forall|pages: Seq<Seq<(i64, i64)>>|
                #![trigger old(self).remaining(pages)]
                old(self).remaining(pages).len() > 0 && old(self).holds_next() ==> final(self).remaining(
                    pages,
                ) == old(self).remaining(pages).skip(1),
    {
        if self.pos < self.records.len() {
            self.pos = self.pos + 1;
            proof {
                assert forall|pages: Seq<Seq<(i64, i64)>>|
                    #![trigger old(self).remaining(pages)]
                    old(self).remaining(pages).len() > 0 && old(self).holds_next() implies self.remaining(
                    pages,
                ) == old(self).remaining(pages).skip(1) by {
                    assert(self.remaining(pages) =~= old(self).remaining(pages).skip(1));
                }
            }
        }
    }

    /// The next record is on the page that the reader holds.
    pub closed spec fn holds_next(&self) -> bool {
        self.pos < self.records@.len()
    }
}

/// A read of a page of one file leaves the cache without pages of another
/// file, where it held none.
pub proof fn lemma_read_avoids(
    before: Seq<CacheEntry>,
    capacity: nat,
    path: Seq<char>,
    offset: nat,
    page: Seq<(i64, i64)>,
    after: Seq<CacheEntry>,
)
    requires
        after == crate::buffer::after_read(
            before,
            capacity,
            CacheEntry { name: path, offset, page },
        ),
    ensures
        forall|name: Seq<char>| name != path && avoids(before, name) ==> avoids(after, name),
{
    assert forall|name: Seq<char>| name != path && avoids(before, name) implies avoids(
        after,
        name,
    ) by {
        assert forall|i: int| 0 <= i < after.len() implies (#[trigger] after[i]).name != name by {
            if holds(before, path, offset) {
                let at = crate::buffer::place_of(before, path, offset);
                if i < at {
                    assert(after[i] == before[i]);
                } else if i < before.len() - 1 {
                    assert(after[i] == before[i + 1]);
                } else {
                    assert(after[i] == before[at]);
                }
            } else if capacity > 0 {
                if i == after.len() - 1 {
                } else if before.len() >= capacity && before.len() > 0 {
                    assert(after[i] == before[i + 1]);
                } else {
                    assert(after[i] == before[i]);
                }
            }
        }
    }
}


/// The whole pages among the pages of `records`.
pub open spec fn full_chunks(records: Seq<(i64, i64)>) -> Seq<Seq<(i64, i64)>> {
    chunks(records).take((records.len() / 256) as int)
}

/// The whole pages of a run do not change when the run grows.
pub proof fn lemma_full_chunks_grow(records: Seq<(i64, i64)>, r: (i64, i64))
    ensures
        records.push(r).len() % 256 != 0 ==> full_chunks(records.push(r)) == full_chunks(records),
        records.push(r).len() % 256 == 0 ==> full_chunks(records.push(r)) == full_chunks(
            records,
        ).push(records.push(r).skip(records.len() - 255)) && records.len() >= 255,
{
    let more = records.push(r);
    let k = (records.len() / 256) as int;
    if more.len() % 256 != 0 {
        assert(more.len() / 256 == k);
        assert forall|p: int| 0 <= p < k implies chunks(more)[p] == chunks(records)[p] by {
            assert(chunk(more, p) =~= chunk(records, p));
        }
        assert(full_chunks(more) =~= full_chunks(records));
    } else {
        assert(more.len() / 256 == k + 1);
        assert forall|p: int| 0 <= p < k implies chunks(more)[p] == chunks(records)[p] by {
            assert(chunk(more, p) =~= chunk(records, p));
        }
        assert(chunk(more, k) =~= more.skip(records.len() - 255));
        assert(full_chunks(more) =~= full_chunks(records).push(more.skip(records.len() - 255)));
    }
}

/// The pages of a run are its whole pages and, where records are left over,
/// one page more with these.
pub proof fn lemma_chunks_end(records: Seq<(i64, i64)>)
    ensures
        records.len() % 256 == 0 ==> chunks(records) == full_chunks(records),
        records.len() % 256 != 0 ==> chunks(records) == full_chunks(records).push(
            records.skip(records.len() - records.len() % 256),
        ),
{
    let k = (records.len() / 256) as int;
    if records.len() % 256 == 0 {
        assert(chunks(records) =~= full_chunks(records));
    } else {
        assert(chunk(records, k) =~= records.skip(records.len() - records.len() % 256));
        assert(chunks(records) =~= full_chunks(records).push(
            records.skip(records.len() - records.len() % 256),
        ));
    }
}

/// The image of pages with one page more.
pub proof fn lemma_images_push(pages: Seq<Seq<(i64, i64)>>, page: Seq<(i64, i64)>)
    ensures
        images(pages.push(page)) == images(pages) + pages_image(page),
{
    assert(pages.push(page).drop_last() =~= pages);
}

/// The writer of a run: records are gathered up to a page of 256 and then
/// appended to the run's file.
pub struct RunWriter {
    buffer: Vec<(i64, i64)>,
    emitted: Ghost<Seq<(i64, i64)>>,
    start: Ghost<Map<Seq<char>, Seq<u8>>>,
}

impl RunWriter {
    /// The records taken so far.
    pub closed spec fn emitted(&self) -> Seq<(i64, i64)> {
        self.emitted@
    }

    /// The disk as it was when the writer began.
    pub closed spec fn start(&self) -> Map<Seq<char>, Seq<u8>> {
        self.start@
    }

    /// The file at `path` on `disk` holds the whole pages of the records
    /// taken so far, after what it held when the writer began; the writer
    /// holds the rest.
    pub closed spec fn wf_on(&self, disk: Map<Seq<char>, Seq<u8>>, path: Seq<char>) -> bool {
        &&& self.buffer@.len() < 256
        &&& self.buffer@.len() == self.emitted@.len() % 256
        &&& self.buffer@ == self.emitted@.skip(self.emitted@.len() - self.buffer@.len())
        &&& disk == appended(self.start@, path, images(full_chunks(self.emitted@)))
    }

    /// A writer for the file at `path`, which it creates where it does not
    /// exist.
    pub fn new(disk: &mut Disk, path: &str) -> (writer: Self)
        ensures
            writer.wf_on(final(disk)@, path@),
            writer.emitted() == Seq::<(i64, i64)>::empty(),
            writer.start() == old(disk)@,
            final(disk)@ == appended(old(disk)@, path@, Seq::empty()),
            final(disk).names() == if old(disk)@.contains_key(path@) {
                old(disk).names()
            } else {
                old(disk).names().push(path@)
            },
    {
        let ghost start = disk@;
        disk.append(path, Vec::new());
        let writer = RunWriter {
            buffer: Vec::with_capacity(256),
            emitted: Ghost(Seq::empty()),
            start: Ghost(start),
        };
        proof {
            assert(full_chunks(Seq::<(i64, i64)>::empty()) =~= Seq::<Seq<(i64, i64)>>::empty());
            assert(writer.buffer@ =~= writer.emitted@.skip(0));
            assert(start.contains_key(path@) ==> start[path@] + Seq::<u8>::empty()
                =~= start[path@]);
            assert(disk@ =~= appended(start, path@, Seq::<u8>::empty()));
        }
        writer
    }

    /// Takes the record `record`; where this fills a page, the page is
    /// appended to the file at `path`.
    pub fn push(&mut self, disk: &mut Disk, path: &str, record: (i64, i64))
        requires
            old(self).wf_on(old(disk)@, path@),
        ensures
            final(self).wf_on(final(disk)@, path@),
            final(self).emitted() == old(self).emitted().push(record),
            final(self).start() == old(self).start(),
            final(disk)@ == old(disk)@ || exists|added: Seq<u8>| #[trigger]
                appended(old(disk)@, path@, added) == final(disk)@,
            old(disk)@.contains_key(path@) ==> final(disk).names() == old(disk).names(),
    {
        let ghost before = self.emitted@;
        self.buffer.push(record);
        self.emitted = Ghost(before.push(record));
        proof {
            lemma_full_chunks_grow(before, record);
            assert(self.buffer@ =~= self.emitted@.skip(self.emitted@.len() - self.buffer@.len()));
        }
        if self.buffer.len() == 256 {
            serialize_kv_to_file(disk, path, &self.buffer);
            proof {
                lemma_images_push(full_chunks(before), self.buffer@);
                lemma_appended_twice(
                    self.start@,
                    path@,
                    images(full_chunks(before)),
                    pages_image(self.buffer@),
                );
                assert(appended(old(disk)@, path@, pages_image(self.buffer@)) == disk@);
            }
            self.buffer.clear();
            proof {
                assert(self.buffer@ =~= self.emitted@.skip(self.emitted@.len() as int));
            }
        }
    }

    /// Appends the records that are left over to the file at `path`, as a
    /// last page.
    pub fn finish(self, disk: &mut Disk, path: &str)
        requires
            self.wf_on(old(disk)@, path@),
        ensures
            final(disk)@ == appended(self.start(), path@, images(chunks(self.emitted()))),
            final(disk)@ == old(disk)@ || exists|added: Seq<u8>| #[trigger]
                appended(old(disk)@, path@, added) == final(disk)@,
            old(disk)@.contains_key(path@) ==> final(disk).names() == old(disk).names(),
    {
        proof {
            lemma_chunks_end(self.emitted@);
        }
        if self.buffer.len() > 0 {
            serialize_kv_to_file(disk, path, &self.buffer);
            proof {
                lemma_images_push(full_chunks(self.emitted@), self.buffer@);
                lemma_appended_twice(
                    self.start@,
                    path@,
                    images(full_chunks(self.emitted@)),
                    pages_image(self.buffer@),
                );
                assert(appended(old(disk)@, path@, pages_image(self.buffer@)) == disk@);
            }
        }
    }
}


impl RunWriter {
    /// While a writer is at work, the other files stay as they were, and no
    /// file gets shorter.
    pub proof fn lemma_other_files(&self, disk: Map<Seq<char>, Seq<u8>>, path: Seq<char>, name: Seq<char>)
        requires
            self.wf_on(disk, path),
        ensures
            name != path ==> disk.contains_key(name) == self.start().contains_key(name) && disk[name]
                == self.start()[name],
            self.start().contains_key(name) ==> disk.contains_key(name) && disk[name].len()
                >= self.start()[name].len(),
    {
    }
}

/// How a merge goes on: the first record of the merged run, and what is
/// left of the two runs after it.
pub proof fn lemma_merge_step(older: Seq<(i64, i64)>, newer: Seq<(i64, i64)>)
    ensures
        older.len() == 0 && newer.len() > 0 ==> merge_newer(older, newer) == seq![newer[0]]
            + merge_newer(older, newer.skip(1)),
        older.len() > 0 && newer.len() == 0 ==> merge_newer(older, newer) == seq![older[0]]
            + merge_newer(older.skip(1), newer),
        older.len() == 0 && newer.len() == 0 ==> merge_newer(older, newer) == Seq::<
            (i64, i64),
        >::empty(),
{
    if older.len() == 0 && newer.len() > 0 {
        assert(merge_newer(older, newer.skip(1)) =~= newer.skip(1));
        assert(seq![newer[0]] + newer.skip(1) =~= newer);
    }
    if older.len() > 0 && newer.len() == 0 {
        assert(older.skip(1).len() == 0 ==> merge_newer(older.skip(1), newer) =~= newer);
        assert(older.skip(1).len() > 0 ==> merge_newer(older.skip(1), newer) =~= older.skip(1));
        assert(seq![older[0]] + older.skip(1) =~= older);
    }
}

/// The bits of a run with one record more.
pub proof fn lemma_filter_bits_push(records: Seq<(i64, i64)>, r: (i64, i64), size: u64)
    ensures
        filter_bits(records.push(r), size) == filter_bits(records, size).union(key_bits(r.0, size)),
{
    assert(records.push(r).drop_last() =~= records);
}

/// What a merge assumes of the cache and of the names of the three runs:
/// the cache is in step with the disk and holds no page of the output file,
/// and the output file is neither of the input files.
pub open spec fn merge_ready(
    view: Seq<CacheEntry>,
    disk: Disk,
    first: Seq<char>,
    second: Seq<char>,
    output: Seq<char>,
) -> bool {
    &&& coherent(view, disk)
    &&& avoids(view, output)
    &&& first != output
    &&& second != output
}

/// The records of the two runs merged, as the files hold them.
pub open spec fn merged_runs(disk: Map<Seq<char>, Seq<u8>>, first: Seq<char>, second: Seq<char>) -> Seq<
    (i64, i64),
> {
    merge_newer(flat(file_run(disk, first)), flat(file_run(disk, second)))
}

/// Merges the run in the file `first` with the newer run in the file
/// `second` into the file `output`, page by page, and adds the keys of the
/// merged run to `filter`.
#[verifier::rlimit(60)]
pub fn merge_runs(
    disk: &mut Disk,
    pool: &mut BufferPool,
    first: &str,
    second: &str,
    output: &str,
    filter: &mut Bitmap,
)
    requires
        old(pool).wf(),
        old(filter).usable(),
    ensures
        final(pool).wf(),
        final(pool).capacity() == old(pool).capacity(),
        final(filter).usable(),
        final(filter).spec_size() == old(filter).spec_size(),
        forall|name: Seq<char>|
            name != first@ && name != second@ && avoids(old(pool)@, name) ==> avoids(
                final(pool)@,
                name,
            ),
        forall|names: Set<Seq<char>>|
            #![trigger names_within(old(pool)@, names)]
            names_within(old(pool)@, names) && names.contains(first@) && names.contains(second@)
                ==> names_within(final(pool)@, names),
        final(disk).names() == if old(disk)@.contains_key(output@) {
            old(disk).names()
        } else {
            old(disk).names().push(output@)
        },
        merge_ready(old(pool)@, *old(disk), first@, second@, output@) ==> {
            &&& final(disk)@ == appended(
                old(disk)@,
                output@,
                images(chunks(merged_runs(old(disk)@, first@, second@))),
            )
            &&& final(filter)@ == old(filter)@.union(
                filter_bits(merged_runs(old(disk)@, first@, second@), old(filter).spec_size()),
            )
            &&& coherent(final(pool)@, *final(disk))
        },
{
    let ghost start = *disk;
    let ghost ok = merge_ready(pool@, *disk, first@, second@, output@);
    let ghost size = filter.spec_size();
    let wanted_a: usize = disk.page_count(first);
    let a_total: usize = pages_to_read(disk, first, wanted_a);
    let wanted_b: usize = disk.page_count(second);
    let b_total: usize = pages_to_read(disk, second, wanted_b);
    let ghost pa = file_run(start@, first@);
    let ghost pb = file_run(start@, second@);
    let ghost merged = merge_newer(flat(pa), flat(pb));
    proof {
        if a_total > 0 {
            assert(pa =~= run_pages(start@[first@], a_total as nat));
        } else {
            assert(pa =~= run_pages(start@[first@], 0));
        }
        if b_total > 0 {
            assert(pb =~= run_pages(start@[second@], b_total as nat));
        } else {
            assert(pb =~= run_pages(start@[second@], 0));
        }
    }
    let mut writer: RunWriter = RunWriter::new(disk, output);
    proof {
        if ok {
            lemma_append_keeps_coherent(pool@, start, *disk, output@, Seq::empty());
        }
        assert(filter_bits(Seq::<(i64, i64)>::empty(), size) =~= Set::<u64>::empty());
        assert(filter@.union(Set::<u64>::empty()) =~= filter@);
    }
    let mut ca: Cursor = Cursor::new();
    let mut cb: Cursor = Cursor::new();
    let mut done: bool = false;
    while !done
        invariant
            pool.wf(),
            pool.capacity() == old(pool).capacity(),
            filter.usable(),
            filter.spec_size() == size,
            size == old(filter).spec_size(),
            ca.wf(),
            cb.wf(),
            ca.pages_read() <= a_total,
            cb.pages_read() <= b_total,
            a_total > 0 ==> readable(&start, first@, a_total as nat),
            b_total > 0 ==> readable(&start, second@, b_total as nat),
            pa == run_pages(start@[first@], a_total as nat),
            pb == run_pages(start@[second@], b_total as nat),
            merged == merge_newer(flat(pa), flat(pb)),
            start == *old(disk),
            writer.wf_on(disk@, output@),
            writer.start() == start@,
            ok == merge_ready(old(pool)@, start, first@, second@, output@),
            forall|name: Seq<char>|
                name != first@ && name != second@ && avoids(old(pool)@, name) ==> avoids(
                    pool@,
                    name,
                ),
            forall|names: Set<Seq<char>>|
                #![trigger names_within(old(pool)@, names)]
                names_within(old(pool)@, names) && names.contains(first@) && names.contains(
                    second@,
                ) ==> names_within(pool@, names),
            disk.names() == if old(disk)@.contains_key(output@) {
                old(disk).names()
            } else {
                old(disk).names().push(output@)
            },
            ok ==> coherent(pool@, *disk) && avoids(pool@, output@),
            ok ==> filter@ == old(filter)@.union(filter_bits(writer.emitted(), size)),
            ok && !done ==> merged == writer.emitted() + merge_newer(
                ca.remaining(pa),
                cb.remaining(pb),
            ),
            ok && done ==> merged == writer.emitted(),
        decreases
                (if done {
                    0nat
                } else {
                    1nat
                }),
                (a_total - ca.pages_read()) + (b_total - cb.pages_read()),
                ca.left_on_page() + cb.left_on_page(),
    {
        proof {
            writer.lemma_other_files(disk@, output@, first@);
            writer.lemma_other_files(disk@, output@, second@);
        }
        let ghost view0 = pool@;
        let head_a: Option<(i64, i64)> = ca.peek(&*disk, pool, first, a_total);
        let ghost view1 = pool@;
        let head_b: Option<(i64, i64)> = cb.peek(&*disk, pool, second, b_total);
        let ghost rest_a = ca.remaining(pa);
        let ghost rest_b = cb.remaining(pb);
        proof {
            if ok {
                assert(disk@[first@] == start@[first@]);
                assert(disk@[second@] == start@[second@]);
                lemma_merge_step(rest_a, rest_b);
            }
        }
        let ghost before = writer.emitted();
        let ghost disk_before = *disk;
        let ghost bits_before = filter@;
        match (head_a, head_b) {
            (None, None) => {
                done = true;
                proof {
                    if ok {
                        assert(before + Seq::<(i64, i64)>::empty() =~= before);
                    }
                }
            },
            (Some(a), None) => {
                ca.advance();
                writer.push(disk, output, a);
                filter.insert_key(a.0);
            },
            (None, Some(b)) => {
                cb.advance();
                writer.push(disk, output, b);
                filter.insert_key(b.0);
            },
            (Some(a), Some(b)) => {
                if a.0 < b.0 {
                    ca.advance();
                    writer.push(disk, output, a);
                    filter.insert_key(a.0);
                } else if a.0 > b.0 {
                    cb.advance();
                    writer.push(disk, output, b);
                    filter.insert_key(b.0);
                } else {
                    ca.advance();
                    cb.advance();
                    writer.push(disk, output, b);
                    filter.insert_key(b.0);
                }
            },
        }
        proof {
            if ok && !done {
                let r = writer.emitted().last();
                assert(writer.emitted() == before.push(r));
                lemma_filter_bits_push(before, r, size);
                assert(filter@ =~= old(filter)@.union(filter_bits(writer.emitted(), size)));
                assert(merged =~= writer.emitted() + merge_newer(ca.remaining(pa), cb.remaining(pb)));
                if disk@ != disk_before@ {
                    let added = choose|added: Seq<u8>| #[trigger]
                        appended(disk_before@, output@, added) == disk@;
                    lemma_append_keeps_coherent(pool@, disk_before, *disk, output@, added);
                }
            }
        }
    }
    let ghost disk_before = *disk;
    writer.finish(disk, output);
    proof {
        if ok {
            if disk@ != disk_before@ {
                let added = choose|added: Seq<u8>| #[trigger]
                    appended(disk_before@, output@, added) == disk@;
                lemma_append_keeps_coherent(pool@, disk_before, *disk, output@, added);
            }
        }
    }
}


/// A sorted run without its first record is sorted, and its keys are those
/// of the run but the first.
pub proof fn lemma_skip_first(s: Seq<(i64, i64)>)
    requires
        keys_ascend(s),
        s.len() > 0,
    ensures
        keys_ascend(s.skip(1)),
        forall|i: int| 0 <= i < s.skip(1).len() ==> s[0].0 < (#[trigger] s.skip(1)[i]).0,
        forall|k: i64| has_key(s, k) <==> (k == s[0].0 || has_key(s.skip(1), k)),
        forall|k: i64| has_key(s.skip(1), k) ==> entries_map(s.skip(1))[k] == entries_map(s)[k],
        entries_map(s)[s[0].0] == s[0].1,
{
    let rest = s.skip(1);
    assert forall|i: int, j: int| 0 <= i < j < rest.len() implies rest[i].0 < rest[j].0 by {
        assert(rest[i] == s[i + 1] && rest[j] == s[j + 1]);
    }
    assert forall|i: int| 0 <= i < rest.len() implies s[0].0 < (#[trigger] rest[i]).0 by {
        assert(rest[i] == s[i + 1]);
    }
    assert forall|k: i64| has_key(s, k) <==> (k == s[0].0 || has_key(rest, k)) by {
        if has_key(s, k) {
            let i = index_of_key(s, k);
            if i > 0 {
                assert(rest[i - 1].0 == k);
            }
        }
        if has_key(rest, k) {
            let i = index_of_key(rest, k);
            assert(s[i + 1].0 == k);
        }
        if k == s[0].0 {
            assert(s[0].0 == k);
        }
    }
    assert forall|k: i64| has_key(rest, k) implies entries_map(rest)[k] == entries_map(s)[k] by {
        let i = index_of_key(rest, k);
        lemma_entry_at(rest, i);
        assert(s[i + 1] == rest[i]);
        lemma_entry_at(s, i + 1);
    }
    lemma_entry_at(s, 0);
}

/// A record before a sorted run whose keys are all greater makes a sorted
/// run.
pub proof fn lemma_cons_ascends(first: (i64, i64), rest: Seq<(i64, i64)>)
    requires
        keys_ascend(rest),
        forall|i: int| 0 <= i < rest.len() ==> first.0 < (#[trigger] rest[i]).0,
    ensures
        keys_ascend(seq![first] + rest),
        forall|k: i64| has_key(seq![first] + rest, k) <==> (k == first.0 || has_key(rest, k)),
        entries_map(seq![first] + rest)[first.0] == first.1,
        forall|k: i64| has_key(rest, k) ==> entries_map(seq![first] + rest)[k] == entries_map(
            rest,
        )[k],
{
    let all = seq![first] + rest;
    assert forall|i: int, j: int| 0 <= i < j < all.len() implies all[i].0 < all[j].0 by {
        assert(all[j] == rest[j - 1]);
        if i > 0 {
            assert(all[i] == rest[i - 1]);
        }
    }
    assert(all.skip(1) =~= rest);
    lemma_skip_first(all);
}

/// The merge of two sorted runs is sorted; it holds the keys of both, each
/// with the value of the newer run where that holds the key, else with
/// that of the older; and each of its records is a record of one of the two.
pub proof fn lemma_merge_newer(older: Seq<(i64, i64)>, newer: Seq<(i64, i64)>)
    requires
        keys_ascend(older),
        keys_ascend(newer),
    ensures
        keys_ascend(merge_newer(older, newer)),
        entries_map(merge_newer(older, newer)) == entries_map(older).union_prefer_right(
            entries_map(newer),
        ),
        forall|i: int|
            0 <= i < merge_newer(older, newer).len() ==> older.contains(
                #[trigger] merge_newer(older, newer)[i],
            ) || newer.contains(merge_newer(older, newer)[i]),
        forall|i: int|
            0 <= i < merge_newer(older, newer).len() ==> (older.len() > 0 && older[0].0 <= (
            #[trigger] merge_newer(older, newer)[i]).0) || (newer.len() > 0 && newer[0].0
                <= merge_newer(older, newer)[i].0),
    decreases older.len() + newer.len(),
{
    let m = merge_newer(older, newer);
    let want = entries_map(older).union_prefer_right(entries_map(newer));
    if older.len() == 0 {
        assert(entries_map(older) =~= Map::<i64, i64>::empty());
        assert(entries_map(newer) =~= want);
        assert forall|i: int| 0 <= i < m.len() implies newer.contains(#[trigger] m[i]) && newer[0].0
            <= m[i].0 by {
            assert(newer[i] == m[i]);
            if i > 0 {
                assert(newer[0].0 < newer[i].0);
            }
        }
    } else if newer.len() == 0 {
        assert(entries_map(newer) =~= Map::<i64, i64>::empty());
        assert(entries_map(older) =~= want);
        assert forall|i: int| 0 <= i < m.len() implies older.contains(#[trigger] m[i]) && older[0].0
            <= m[i].0 by {
            assert(older[i] == m[i]);
            if i > 0 {
                assert(older[0].0 < older[i].0);
            }
        }
    } else {
        lemma_skip_first(older);
        lemma_skip_first(newer);
        let (first, a, b) = if older[0].0 < newer[0].0 {
            (older[0], older.skip(1), newer)
        } else if older[0].0 > newer[0].0 {
            (newer[0], older, newer.skip(1))
        } else {
            (newer[0], older.skip(1), newer.skip(1))
        };
        let rest = merge_newer(a, b);
        assert(m == seq![first] + rest);
        lemma_merge_newer(a, b);
        assert forall|i: int| 0 <= i < rest.len() implies first.0 < (#[trigger] rest[i]).0 by {
            if a.len() > 0 && a[0].0 <= rest[i].0 {
            } else {
                assert(b.len() > 0 && b[0].0 <= rest[i].0);
            }
        }
        lemma_cons_ascends(first, rest);
        assert forall|k: i64| entries_map(m).contains_key(k) == want.contains_key(k) by {
            assert(has_key(rest, k) == entries_map(a).union_prefer_right(
                entries_map(b),
            ).contains_key(k));
        }
        assert forall|k: i64| entries_map(m).contains_key(k) implies entries_map(m)[k]
            == want[k] by {
            assert(has_key(rest, k) == entries_map(a).union_prefer_right(
                entries_map(b),
            ).contains_key(k));
            if has_key(rest, k) {
                assert(entries_map(rest)[k] == entries_map(a).union_prefer_right(
                    entries_map(b),
                )[k]);
            }
        }
        assert(entries_map(m) =~= want);
        assert forall|i: int| 0 <= i < m.len() implies (older.contains(#[trigger] m[i])
            || newer.contains(m[i])) && ((older.len() > 0 && older[0].0 <= m[i].0) || (newer.len()
            > 0 && newer[0].0 <= m[i].0)) by {
            if i == 0 {
                assert(m[0] == first);
                assert(older[0] == first || newer[0] == first);
            } else {
                let r = rest[i - 1];
                assert(m[i] == r);
                if a.contains(r) {
                    let j = a.index_of(r);
                    assert(a[j] == r);
                    if a.len() < older.len() {
                        assert(older[j + 1] == r);
                    } else {
                        assert(older[j] == r);
                    }
                }
                if b.contains(r) {
                    let j = b.index_of(r);
                    assert(b[j] == r);
                    if b.len() < newer.len() {
                        assert(newer[j + 1] == r);
                    } else {
                        assert(newer[j] == r);
                    }
                }
                assert(first.0 < r.0);
            }
        }
    }
}

/// The records of the pages of a run, one page after the other, are the
/// records of the run.
pub proof fn lemma_flat_chunks(records: Seq<(i64, i64)>)
    ensures
        flat(chunks(records)) == records,
    decreases records.len(),
{
    let pages = chunks(records);
    if records.len() == 0 {
        assert(pages.len() == 0);
        assert(flat(pages) =~= records);
    } else if records.len() <= 256 {
        assert(pages.len() == 1);
        assert(pages[0] =~= records);
        assert(pages.skip(1).len() == 0);
        assert(flat(pages.skip(1)) =~= Seq::<(i64, i64)>::empty());
        assert(flat(pages) =~= records);
    } else {
        let rest = records.skip(256);
        lemma_flat_chunks(rest);
        assert(page_count(rest.len()) == page_count(records.len()) - 1);
        assert forall|p: int| 0 <= p < chunks(rest).len() implies chunks(rest)[p] == pages.skip(
            1,
        )[p] by {
            assert(chunk(rest, p) =~= chunk(records, p + 1));
        }
        assert(chunks(rest) =~= pages.skip(1));
        assert(pages[0] =~= records.subrange(0, 256));
        assert(records.subrange(0, 256) + rest =~= records);
    }
}


/// A cache stays in step with the disk when a file is removed.
pub proof fn lemma_remove_keeps_coherent(view: Seq<CacheEntry>, before: Disk, after: Disk, path: Seq<char>)
    requires
        coherent(view, before),
        after@ == before@.remove(path),
    ensures
        coherent(view, after),
{
    assert forall|i: int|
        0 <= i < view.len() && after.has_page(
            (#[trigger] view[i]).name,
            view[i].offset as int,
        ) implies view[i].page == crate::page::decode_page(
        after.page_bytes(view[i].name, view[i].offset as int),
    ) by {
        assert(before.has_page(view[i].name, view[i].offset as int));
    }
}

} // verus!
