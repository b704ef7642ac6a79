//! The page cache: a fixed number of decoded pages, found by file name and
//! byte offset, with the least recently used one evicted first.

pub mod lru;

use crate::buffer::lru::{LRUMain, LRUNode};
use crate::disk::Disk;
use crate::page::decode_page;
use crate::path::{page_key, page_key_text};
use crate::records::copy_records;
use crate::sst::deserialize_page;
use vstd::prelude::*;
use vstd::string::*;
use vstd::utf8::encode_utf8;

verus! {

/// What names a cached page: the file that it belongs to and where in that
/// file it lies.
pub struct BufferKey {
    /// The name of the file.
    sst_name: String,
    /// The offset of the page in the file, in bytes.
    page_offset: usize,
}

/// One cached page, linked into the chain of its bucket.
pub struct BufferNode {
    /// The name of the page.
    key: BufferKey,
    /// The records of the page.
    page: Vec<(i64, i64)>,
    /// The handle of the node's place in the eviction queue.
    lru_node: usize,
    /// The next node in the chain of the bucket.
    next: Option<usize>,
    /// The node before this one in the chain of the bucket.
    prev: Option<usize>,
}

/// The page cache.
pub struct BufferPool {
    /// The number of pages that the cache may hold, and of its buckets.
    size: usize,
    /// The number of pages that the cache holds.
    curr_size: usize,
    /// For each bucket, the head of its chain.
    buffer: Vec<Option<usize>>,
    /// The cached pages, each in the slot that its queue handle names.
    nodes: Vec<BufferNode>,
    /// The eviction queue.
    lru: LRUMain,
    /// For each bucket, the slots of its chain from the head on.
    chains: Ghost<Seq<Seq<usize>>>,
}

/// A cached page as a value: the file, the offset and the records.
pub struct CacheEntry {
    pub name: Seq<char>,
    pub offset: nat,
    pub page: Seq<(i64, i64)>,
}

/// The XXH3 hash of `bytes`, 64 bits wide, with seed 0.
pub uninterp spec fn xxh3_64(bytes: Seq<u8>) -> u64;

/// The bucket of the page at `offset` of the file `name` in a cache of
/// `size` buckets: the hash of the text "name offset", modulo `size`.
pub open spec fn bucket_of(name: Seq<char>, offset: nat, size: nat) -> nat {
    (xxh3_64(encode_utf8(page_key_text(name, offset))) as nat) % size
}

/// Calls `twox_hash::xxh3::hash64`, which computes the XXH3 64-bit hash of
/// the bytes with seed 0: a function of the bytes alone.
#[verifier::external_body]
fn hash64(data: &[u8]) -> (hash: u64)
    ensures
        hash == xxh3_64(data@),
{
    twox_hash::xxh3::hash64(data)
}

/// The bucket of `key` in a cache of `arr_size` buckets.
fn custom_hash(key: &BufferKey, arr_size: usize) -> (bucket: usize)
    requires
        arr_size > 0,
    ensures
        bucket == bucket_of(key@.0, key@.1, arr_size as nat),
{
    let combined: String = page_key(key.sst_name.as_str(), key.page_offset);
    let hashed: u64 = hash64(combined.as_str().as_bytes());
    (hashed % (arr_size as u64)) as usize
}

impl View for BufferKey {
    type V = (Seq<char>, nat);

    /// The key as a pair of file name and offset.
    closed spec fn view(&self) -> (Seq<char>, nat) {
        (self.sst_name@, self.page_offset as nat)
    }
}

impl BufferKey {
    /// The key of the page at `page_offset` of the file `sst_name`.
    pub fn new(sst_name: String, page_offset: usize) -> (key: Self)
        ensures
            key@ == (sst_name@, page_offset as nat),
    {
        BufferKey { sst_name, page_offset }
    }

    /// Whether the two keys name the same page.
    pub fn same_as(&self, other: &BufferKey) -> (same: bool)
        ensures
            same == (self@ == other@),
    {
        self.sst_name == other.sst_name && self.page_offset == other.page_offset
    }

}

impl PartialEq for BufferKey {
    /// Whether the two keys name the same page.
    fn eq(&self, other: &Self) -> (same: bool) {
        self.sst_name == other.sst_name && self.page_offset == other.page_offset
    }
}

impl vstd::std_specs::cmp::PartialEqSpecImpl for BufferKey {
    open spec fn obeys_eq_spec() -> bool {
        true
    }

    open spec fn eq_spec(&self, other: &Self) -> bool {
        self@ == other@
    }
}

impl BufferNode {
    /// The node as a cache entry.
    pub closed spec fn entry(&self) -> CacheEntry {
        CacheEntry { name: self.key@.0, offset: self.key@.1, page: self.page@ }
    }

    /// The handle of the node's place in the eviction queue.
    pub closed spec fn spec_lru_node(&self) -> usize {
        self.lru_node
    }

    /// The node is linked to no other node.
    pub closed spec fn is_unlinked(&self) -> bool {
        self.next is None && self.prev is None
    }

    /// A node for the page `page` under `key`, whose place in the eviction
    /// queue has the handle `lru_node`; it is linked to no chain.
    pub fn new(key: BufferKey, page: Vec<(i64, i64)>, lru_node: usize) -> (node: Self)
        ensures
            node.entry() == (CacheEntry { name: key@.0, offset: key@.1, page: page@ }),
            node.spec_lru_node() == lru_node,
            node.is_unlinked(),
    {
        BufferNode { key, page, lru_node, next: None, prev: None }
    }

    /// A copy of the records of the page.
    pub fn get_page_data(&self) -> (page: Vec<(i64, i64)>)
        ensures
            page@ == self.entry().page,
    {
        copy_records(&self.page)
    }
}


/// The slot at place `i` of `chain`, if there is such a place.
#[verifier::opaque]
spec fn slot_at(chain: Seq<usize>, i: int) -> Option<usize> {
    if 0 <= i < chain.len() {
        Some(chain[i])
    } else {
        None
    }
}

/// What `slot_at` is at the place `i`.
proof fn lemma_slot_at(chain: Seq<usize>, i: int)
    ensures
        slot_at(chain, i) == if 0 <= i < chain.len() {
            Some(chain[i])
        } else {
            None
        },
{
    reveal(slot_at);
}

/// Some entry of `view` is the page at `offset` of the file `name`.
pub open spec fn holds(view: Seq<CacheEntry>, name: Seq<char>, offset: nat) -> bool {
    exists|i: int|
        0 <= i < view.len() && (#[trigger] view[i]).name == name && view[i].offset == offset
}

/// The place in `view` of the page at `offset` of the file `name`.
pub open spec fn place_of(view: Seq<CacheEntry>, name: Seq<char>, offset: nat) -> int {
    choose|i: int|
        0 <= i < view.len() && (#[trigger] view[i]).name == name && view[i].offset == offset
}

/// No two entries of `view` are for the same page.
pub open spec fn distinct_pages(view: Seq<CacheEntry>) -> bool {
    forall|i: int, j: int|
        0 <= i < j < view.len() ==> !((#[trigger] view[i]).name == (#[trigger] view[j]).name
            && view[i].offset == view[j].offset)
}

/// `view` after a use of the entry at place `i`: the entry moves to the back.
pub open spec fn touched(view: Seq<CacheEntry>, i: int) -> Seq<CacheEntry> {
    view.remove(i).push(view[i])
}

/// `view` after `entry` was added to a cache that holds at most `capacity`
/// pages: where the cache was full, the entry at the front has left.
pub open spec fn admitted(view: Seq<CacheEntry>, capacity: nat, entry: CacheEntry) -> Seq<
    CacheEntry,
> {
    if view.len() >= capacity && view.len() > 0 {
        view.drop_first().push(entry)
    } else {
        view.push(entry)
    }
}

/// `chain` without the entry `gone`, where it holds that entry.
pub open spec fn chain_without(chain: Seq<CacheEntry>, gone: CacheEntry) -> Seq<CacheEntry> {
    if chain.contains(gone) {
        chain.remove(chain.index_of(gone))
    } else {
        chain
    }
}

/// The chain `chain` of bucket `b` after `entry` was added to a cache that
/// holds at most `capacity` pages and had the view `view`: where the cache
/// was full, the entry at the front of the view has left its chain; the
/// new entry stands at the front of the chain of its bucket.
pub open spec fn chain_admitted(
    view: Seq<CacheEntry>,
    capacity: nat,
    chain: Seq<CacheEntry>,
    b: int,
    entry: CacheEntry,
) -> Seq<CacheEntry> {
    let kept = if view.len() >= capacity && view.len() > 0 {
        chain_without(chain, view[0])
    } else {
        chain
    };
    if b == bucket_of(entry.name, entry.offset, capacity) {
        seq![entry] + kept
    } else {
        kept
    }
}

/// `view` after a read of the page `entry` through a cache that holds at
/// most `capacity` pages.
pub open spec fn after_read(view: Seq<CacheEntry>, capacity: nat, entry: CacheEntry) -> Seq<
    CacheEntry,
> {
    if holds(view, entry.name, entry.offset) {
        touched(view, place_of(view, entry.name, entry.offset))
    } else if capacity == 0 {
        view
    } else {
        admitted(view, capacity, entry)
    }
}

/// Every entry of `view` is for a page of one of the files `names`.
pub open spec fn names_within(view: Seq<CacheEntry>, names: Set<Seq<char>>) -> bool {
    forall|i: int| 0 <= i < view.len() ==> names.contains((#[trigger] view[i]).name)
}

/// A read of a page of one of the files `names` leaves a cache that held
/// pages of these files only with pages of these files only.
pub proof fn lemma_read_within(
    view: Seq<CacheEntry>,
    capacity: nat,
    entry: CacheEntry,
    names: Set<Seq<char>>,
)
    requires
        names_within(view, names),
        names.contains(entry.name),
    ensures
        names_within(after_read(view, capacity, entry), names),
{
    let after = after_read(view, capacity, entry);
    assert forall|i: int| 0 <= i < after.len() implies names.contains(
        (#[trigger] after[i]).name,
    ) by {
        if holds(view, entry.name, entry.offset) {
            let at = place_of(view, entry.name, entry.offset);
            if i < at {
                assert(after[i] == view[i]);
            } else if i < view.len() - 1 {
                assert(after[i] == view[i + 1]);
            } else {
                assert(after[i] == view[at]);
            }
        } else if capacity > 0 {
            if i == after.len() - 1 {
                assert(after[i] == entry);
            } else if view.len() >= capacity && view.len() > 0 {
                assert(after[i] == view[i + 1]);
            } else {
                assert(after[i] == view[i]);
            }
        }
    }
}

/// Every entry of `view` whose page is on `disk` holds the records of that
/// page as they are on `disk`.
pub open spec fn coherent(view: Seq<CacheEntry>, disk: Disk) -> bool {
    forall|i: int|
        0 <= i < view.len() && disk.has_page((#[trigger] view[i]).name, view[i].offset as int)
            ==> view[i].page == decode_page(disk.page_bytes(view[i].name, view[i].offset as int))
}

impl BufferPool {
    /// The slot `slot` holds a cached page.
    spec fn live(&self, slot: usize) -> bool {
        self.lru.handles().contains(slot)
    }

    /// The bucket of the page in the slot `slot`.
    spec fn bucket_of_slot(&self, slot: usize) -> int {
        bucket_of(
            self.nodes@[slot as int].key@.0,
            self.nodes@[slot as int].key@.1,
            self.size as nat,
        ) as int
    }

    /// The chain of bucket `b` is a well-linked list of live slots whose
    /// pages belong to the bucket.
    spec fn chain_ok(&self, b: int) -> bool {
        let chain = self.chains@[b];
        &&& chain.no_duplicates()
        &&& self.buffer@[b] == slot_at(chain, 0)
        &&& forall|i: int|
            0 <= i < chain.len() ==> {
                let slot = #[trigger] chain[i];
                &&& self.live(slot)
                &&& self.bucket_of_slot(slot) == b
                &&& self.nodes@[slot as int].prev == slot_at(chain, i - 1)
                &&& self.nodes@[slot as int].next == slot_at(chain, i + 1)
            }
    }

    /// The invariant of the cache, with `spare` slots that hold no page.
    #[verifier::opaque]
    spec fn inv(&self, spare: nat) -> bool {
        self.inv_body(spare)
    }

    /// What the invariant says.
    proof fn open_inv(&self, spare: nat)
        requires
            self.inv(spare),
        ensures
            self.inv_body(spare),
    {
        reveal(BufferPool::inv);
    }

    /// What it takes to have the invariant.
    proof fn close_inv(&self, spare: nat)
        requires
            self.inv_body(spare),
        ensures
            self.inv(spare),
    {
        reveal(BufferPool::inv);
    }

    /// The statement of the invariant.
    spec fn inv_body(&self, spare: nat) -> bool {
        &&& self.lru.wf()
        &&& self.nodes@.len() == self.lru.slots()
        &&& self.lru.handles().len() + spare == self.lru.slots()
        &&& self.buffer@.len() == self.size
        &&& self.chains@.len() == self.size
        &&& self.curr_size == self.lru.handles().len()
        &&& self.curr_size + spare <= self.size
        &&& forall|s: usize| #[trigger]
            self.live(s) ==> self.lru.data_of(s) == Some(s) && self.nodes@[s as int].lru_node == s
        &&& forall|s: usize, t: usize|
            #![trigger self.live(s), self.live(t)]
            self.live(s) && self.live(t) && s != t ==> self.nodes@[s as int].key@
                != self.nodes@[t as int].key@
        &&& forall|b: int| 0 <= b < self.size ==> #[trigger] self.chain_ok(b)
        &&& forall|s: usize| #[trigger]
            self.live(s) ==> self.chains@[self.bucket_of_slot(s)].contains(s)
    }

    /// The cache is well formed: its chains and its eviction queue are
    /// well-linked lists that hold the same pages, each page once.
    pub closed spec fn wf(&self) -> bool {
        self.inv(0)
    }

    /// The number of pages that the cache may hold.
    pub closed spec fn capacity(&self) -> nat {
        self.size as nat
    }

    /// The records of the page in each bucket's chain, from the head on.
    pub closed spec fn bucket(&self, b: int) -> Seq<CacheEntry> {
        Seq::new(self.chains@[b].len(), |i: int| self.nodes@[self.chains@[b][i] as int].entry())
    }

    /// Every chain of `after` is the chain that `self` has for that bucket.
    pub open spec fn buckets_kept(&self, after: &BufferPool) -> bool {
        forall|b: int| 0 <= b < self.capacity() ==> #[trigger] after.bucket(b) == self.bucket(b)
    }

    /// Every chain of `after` is the chain of `self` after `entry` was
    /// added: the entry stands at the front of the chain of the bucket
    /// that its hash names, and where the cache was full, the entry that
    /// left has left its chain.
    pub open spec fn buckets_admit(&self, after: &BufferPool, entry: CacheEntry) -> bool {
        forall|b: int|
            0 <= b < self.capacity() ==> #[trigger] after.bucket(b) == chain_admitted(
                self@,
                self.capacity(),
                self.bucket(b),
                b,
                entry,
            )
    }

    /// Every chain of `after` is the chain of `self` without the entry at
    /// the front of the view.
    spec fn buckets_evict(&self, after: &BufferPool) -> bool {
        forall|b: int|
            0 <= b < self.size ==> #[trigger] after.bucket(b) == chain_without(
                self.bucket(b),
                self@[0],
            )
    }
}

impl View for BufferPool {
    type V = Seq<CacheEntry>;

    /// The cached pages, the next one to evict first, the last one used at
    /// the end.
    closed spec fn view(&self) -> Seq<CacheEntry> {
        Seq::new(
            self.lru.handles().len(),
            |i: int| self.nodes@[self.lru.handles()[i] as int].entry(),
        )
    }
}

impl BufferPool {
    /// A well-formed cache holds each page once, and no more pages than its
    /// capacity.
    pub proof fn lemma_wf_view(&self)
        requires
            self.wf(),
        ensures
            distinct_pages(self@),
            self@.len() <= self.capacity(),
    {
        self.open_inv(0);
        let live = self.lru.handles();
        self.lru.lemma_handles();
        assert forall|i: int, j: int| 0 <= i < j < self@.len() implies !((
        #[trigger] self@[i]).name == (#[trigger] self@[j]).name && self@[i].offset
            == self@[j].offset) by {
            assert(self.live(live[i]) && self.live(live[j]));
            assert(live[i] != live[j]);
        }
    }

    /// An empty cache that may hold `buffer_size` pages.
    pub fn new(buffer_size: usize) -> (pool: Self)
        ensures
            pool.wf(),
            pool.capacity() == buffer_size,
            pool@ == Seq::<CacheEntry>::empty(),
            forall|b: int|
                0 <= b < buffer_size ==> #[trigger] pool.bucket(b) == Seq::<CacheEntry>::empty(),
    {
        let mut buf: Vec<Option<usize>> = Vec::with_capacity(buffer_size);
        let mut i: usize = 0;
        while i < buffer_size
            invariant
                i <= buffer_size,
                buf@.len() == i,
                forall|k: int| 0 <= k < i ==> buf@[k] == None::<usize>,
            decreases buffer_size - i,
        {
            buf.push(None);
            i += 1;
        }
        let pool = BufferPool {
            size: buffer_size,
            curr_size: 0,
            buffer: buf,
            nodes: Vec::new(),
            lru: LRUMain::new(),
            chains: Ghost(Seq::new(buffer_size as nat, |b: int| Seq::<usize>::empty())),
        };
        proof {
            assert forall|b: int| 0 <= b < pool.size implies #[trigger] pool.chain_ok(b) by {
                lemma_slot_at(pool.chains@[b], 0);
            }
            pool.close_inv(0);
            assert(pool@ =~= Seq::<CacheEntry>::empty());
            assert forall|b: int| 0 <= b < buffer_size implies #[trigger] pool.bucket(b)
                == Seq::<CacheEntry>::empty() by {
                assert(pool.bucket(b) =~= Seq::<CacheEntry>::empty());
            }
        }
        pool
    }

    /// The number of pages that the cache holds.
    pub fn curr_size(&self) -> (count: usize)
        requires
            self.wf(),
        ensures
            count == self@.len(),
    {
        proof {
            self.open_inv(0);
        }
        self.curr_size
    }

    /// The number of pages that the cache may hold.
    pub fn size(&self) -> (size: usize)
        ensures
            size == self.capacity(),
    {
        self.size
    }

    /// The slot that holds the page named by `key`, if the cache holds it.
    fn search_buffer(&self, key: &BufferKey) -> (found: Option<usize>)
        requires
            self.inv(0),
        ensures
            match found {
                Some(slot) => self.live(slot) && slot < self.nodes@.len()
                    && self.nodes@[slot as int].key@ == key@,
                None => forall|s: usize| #[trigger]
                    self.live(s) ==> self.nodes@[s as int].key@ != key@,
            },
    {
        proof {
            self.open_inv(0);
        }
        if self.size == 0 {
            proof {
                assert forall|s: usize| #[trigger] self.live(s) implies false by {
                    let i = self.lru.handles().index_of(s);
                }
            }
            return None;
        }
        let hash: usize = custom_hash(key, self.size);
        let ghost chain = self.chains@[hash as int];
        assert(self.chain_ok(hash as int));
        let mut cur: Option<usize> = self.buffer[hash];
        let ghost mut pos: int = 0;
        proof {
            lemma_slot_at(chain, 0);
        }
        while cur.is_some()
            invariant
                self.inv(0),
                hash < self.size,
                chain == self.chains@[hash as int],
                self.chain_ok(hash as int),
                0 <= pos <= chain.len(),
                cur == if pos < chain.len() {
                    Some(chain[pos])
                } else {
                    None
                },
                forall|i: int| 0 <= i < pos ==> self.nodes@[(#[trigger] chain[i]) as int].key@ != key@,
            decreases chain.len() - pos,
        {
            let slot: usize = cur.unwrap();
            proof {
                self.open_inv(0);
                assert(slot == chain[pos]);
                assert(self.live(slot));
                self.lru.lemma_handles();
                let i = self.lru.handles().index_of(slot);
                assert(self.lru.handles()[i] < self.lru.slots());
            }
            if self.nodes[slot].key.same_as(key) {
                return Some(slot);
            }
            cur = self.nodes[slot].next;
            proof {
                lemma_slot_at(chain, pos + 1);
                pos = pos + 1;
            }
        }
        proof {
            self.open_inv(0);
            assert forall|s: usize| #[trigger] self.live(s) implies self.nodes@[s as int].key@
                != key@ by {
                if self.nodes@[s as int].key@ == key@ {
                    assert(self.chains@[self.bucket_of_slot(s)].contains(s));
                    let i = chain.index_of(s);
                    assert(chain[i] == s);
                }
            }
        }
        None
    }
}



/// Moving one element of a sequence to its end keeps the elements.
proof fn lemma_moved_contains(h: Seq<usize>, i: int, s: usize)
    requires
        0 <= i < h.len(),
    ensures
        h.remove(i).push(h[i]).contains(s) <==> h.contains(s),
{
    let after = h.remove(i).push(h[i]);
    if h.contains(s) {
        let j = h.index_of(s);
        assert(h[j] == s);
        if j < i {
            assert(after[j] == s);
        } else if j > i {
            assert(after[j - 1] == s);
        } else {
            assert(after[h.len() - 1] == s);
        }
    }
    if after.contains(s) {
        let j = after.index_of(s);
        assert(after[j] == s);
        if j < i {
            assert(h[j] == s);
        } else if j < h.len() - 1 {
            assert(h[j + 1] == s);
        } else {
            assert(h[i] == s);
        }
    }
}

/// The two sequences of nodes hold the same pages under the same keys.
spec fn same_pages(a: Seq<BufferNode>, b: Seq<BufferNode>) -> bool {
    &&& a.len() == b.len()
    &&& forall|s: int|
        0 <= s < a.len() ==> (#[trigger] a[s]).key == b[s].key && a[s].page == b[s].page
            && a[s].lru_node == b[s].lru_node
}

impl BufferPool {
    /// What holds of a slot that holds a page.
    proof fn lemma_live(&self, spare: nat, s: usize)
        requires
            self.inv(spare),
            self.live(s),
        ensures
            s < self.nodes@.len(),
            self.size > 0,
            0 <= self.bucket_of_slot(s) < self.size,
            self.chains@[self.bucket_of_slot(s)].contains(s),
            self.chain_ok(self.bucket_of_slot(s)),
            self.lru.data_of(s) == Some(s),
            self.nodes@[s as int].lru_node == s,
            self.chains@.len() == self.size,
            self.buffer@.len() == self.size,
    {
        self.open_inv(spare);
        self.lru.lemma_handles();
        let i = self.lru.handles().index_of(s);
        assert(self.lru.handles()[i] == s);
        assert(self.curr_size > 0);
        let b = self.bucket_of_slot(s);
        assert(0 <= b < self.size);
        assert(self.chain_ok(b));
    }

    /// `after` is `self` with the page in `slot` used: only the eviction
    /// queue has changed, where the slot has moved to the back.
    spec fn touch_of(&self, after: &BufferPool, slot: usize) -> bool {
        &&& after.size == self.size
        &&& after.curr_size == self.curr_size
        &&& after.buffer == self.buffer
        &&& after.nodes == self.nodes
        &&& after.chains == self.chains
        &&& after.lru.wf()
        &&& after.lru.slots() == self.lru.slots()
        &&& after.lru.handles() == self.lru.handles().remove(
            self.lru.handles().index_of(slot),
        ).push(slot)
        &&& forall|h: usize|
            self.lru.handles().contains(h) ==> after.lru.data_of(h) == self.lru.data_of(h)
    }

    /// A use of a cached page keeps the invariant and moves the page to the
    /// end of the view.
    proof fn lemma_touch(&self, after: &BufferPool, slot: usize)
        requires
            self.inv(0),
            self.live(slot),
            self.touch_of(after, slot),
        ensures
            after.inv(0),
            0 <= self.lru.handles().index_of(slot) < self@.len(),
            self@[self.lru.handles().index_of(slot)] == self.nodes@[slot as int].entry(),
            after@ == touched(self@, self.lru.handles().index_of(slot)),
    {
        self.open_inv(0);
        let live = self.lru.handles();
        let at = live.index_of(slot);
        assert(live[at] == slot);
        assert forall|s: usize| after.live(s) == self.live(s) by {
            lemma_moved_contains(live, at, s);
        }
        assert forall|b: int| 0 <= b < after.size implies #[trigger] after.chain_ok(b) by {
            assert(self.chain_ok(b));
        }
        assert forall|s: usize| #[trigger] after.live(s) implies after.chains@[after.bucket_of_slot(
            s,
        )].contains(s) by {
            assert(self.live(s));
        }
        assert forall|s: usize| #[trigger] after.live(s) implies after.lru.data_of(s) == Some(s)
            && after.nodes@[s as int].lru_node == s by {
            assert(self.live(s));
        }
        assert forall|s: usize, t: usize|
            #![trigger after.live(s), after.live(t)]
            after.live(s) && after.live(t) && s != t implies after.nodes@[s as int].key@
            != after.nodes@[t as int].key@ by {
            assert(self.live(s) && self.live(t));
        }
        after.close_inv(0);
        assert(after@ =~= touched(self@, at));
    }

    /// The records of the page named by `key`, where the cache holds it; the
    /// page then counts as the one used last.
    pub fn find_buffer_page(&mut self, key: &BufferKey) -> (page: Option<Vec<(i64, i64)>>)
        requires
            old(self).wf(),
        ensures
            final(self).wf(),
            final(self).capacity() == old(self).capacity(),
            old(self).buckets_kept(final(self)),
            match page {
                Some(records) => holds(old(self)@, key@.0, key@.1) && records@ == old(
                    self,
                )@[place_of(old(self)@, key@.0, key@.1)].page && final(self)@ == touched(
                    old(self)@,
                    place_of(old(self)@, key@.0, key@.1),
                ),
                None => !holds(old(self)@, key@.0, key@.1) && final(self)@ == old(self)@,
            },
    {
        let ghost before = *self;
        match self.search_buffer(key) {
            Some(slot) => {
                proof {
                    before.lemma_live(0, slot);
                }
                let page: Vec<(i64, i64)> = self.nodes[slot].get_page_data();
                let handle: usize = self.nodes[slot].lru_node;
                proof {
                    before.open_inv(0);
                }
                self.lru.update_lru_position(handle);
                proof {
                    before.lemma_touch(&*self, slot);
                    before.lemma_wf_view();
                    let at = before.lru.handles().index_of(slot);
                    assert(before@[at].name == key@.0 && before@[at].offset == key@.1);
                    let chosen = place_of(before@, key@.0, key@.1);
                    assert(chosen == at) by {
                        if chosen < at {
                            assert(!(before@[chosen].name == before@[at].name
                                && before@[chosen].offset == before@[at].offset));
                        }
                        if at < chosen {
                            assert(!(before@[at].name == before@[chosen].name
                                && before@[at].offset == before@[chosen].offset));
                        }
                    }
                }
                Some(page)
            },
            None => {
                proof {
                    if holds(before@, key@.0, key@.1) {
                        let i = place_of(before@, key@.0, key@.1);
                        let s = before.lru.handles()[i];
                        assert(before.live(s));
                    }
                }
                None
            },
        }
    }
}



impl BufferPool {
    /// The chain of each bucket is well linked.
    proof fn lemma_chain(&self, spare: nat, c: int)
        requires
            self.inv(spare),
            0 <= c < self.size,
        ensures
            self.chain_ok(c),
            self.chains@.len() == self.size,
            self.buffer@.len() == self.size,
    {
        self.open_inv(spare);
    }

    /// What holds of the slot at place `i` of the chain of bucket `c`.
    proof fn lemma_chain_at(&self, spare: nat, c: int, i: int)
        requires
            self.inv(spare),
            0 <= c < self.size,
            0 <= i < self.chains@[c].len(),
        ensures
            self.live(self.chains@[c][i]),
            self.chains@[c][i] < self.nodes@.len(),
            self.bucket_of_slot(self.chains@[c][i]) == c,
            self.nodes@[self.chains@[c][i] as int].prev == slot_at(self.chains@[c], i - 1),
            self.nodes@[self.chains@[c][i] as int].next == slot_at(self.chains@[c], i + 1),
            self.chains@[c].no_duplicates(),
            self.buffer@[c] == slot_at(self.chains@[c], 0),
    {
        self.lemma_chain(spare, c);
        let s = self.chains@[c][i];
        assert(self.live(s));
        self.lemma_live(spare, s);
    }

    /// `after` is `self` with the page at the front of the eviction queue,
    /// which lies in `slot`, taken out of the queue and out of its chain.
    spec fn unlink_of(&self, after: &BufferPool, slot: usize) -> bool {
        let b = self.bucket_of_slot(slot);
        let chain = self.chains@[b];
        let p = chain.index_of(slot);
        let left = slot_at(chain, p - 1);
        let right = slot_at(chain, p + 1);
        &&& after.size == self.size
        &&& after.curr_size == self.curr_size - 1
        &&& same_pages(self.nodes@, after.nodes@)
        &&& after.chains@ == self.chains@.update(b, chain.remove(p))
        &&& after.buffer@ == if left is None {
            self.buffer@.update(b, right)
        } else {
            self.buffer@
        }
        &&& forall|s: int|
            0 <= s < self.nodes@.len() && s != slot ==> (#[trigger] after.nodes@[s]).prev == (if Some(
                s as usize,
            ) == right {
                left
            } else {
                self.nodes@[s].prev
            }) && after.nodes@[s].next == (if Some(s as usize) == left {
                right
            } else {
                self.nodes@[s].next
            })
        &&& after.lru.wf()
        &&& after.lru.slots() == self.lru.slots()
        &&& self.lru.handles().len() > 0
        &&& self.lru.handles()[0] == slot
        &&& after.lru.handles() == self.lru.handles().drop_first()
        &&& forall|h: usize|
            self.lru.handles().contains(h) ==> after.lru.data_of(h) == self.lru.data_of(h)
    }

    /// After an eviction the slots that hold a page are those that did,
    /// without the evicted one.
    proof fn lemma_unlink_live(&self, after: &BufferPool, slot: usize, s: usize)
        requires
            self.inv(0),
            self.unlink_of(after, slot),
        ensures
            after.live(s) == (self.live(s) && s != slot),
    {
        self.open_inv(0);
        self.lru.lemma_handles();
        let live = self.lru.handles();
        if after.live(s) {
            let i = after.lru.handles().index_of(s);
            assert(after.lru.handles()[i] == s);
            assert(live[i + 1] == s);
        }
        if self.live(s) && s != slot {
            let i = live.index_of(s);
            assert(live[i] == s);
            assert(after.lru.handles()[i - 1] == s);
        }
    }

    /// After an eviction the slot at place `i` of another bucket's chain is
    /// linked as before.
    proof fn lemma_unlink_other(&self, after: &BufferPool, slot: usize, c: int, i: int)
        requires
            self.inv(0),
            self.unlink_of(after, slot),
            0 <= c < self.size,
            c != self.bucket_of_slot(slot),
            0 <= i < self.chains@[c].len(),
        ensures
            after.live(self.chains@[c][i]),
            after.bucket_of_slot(self.chains@[c][i]) == c,
            after.nodes@[self.chains@[c][i] as int].prev == slot_at(self.chains@[c], i - 1),
            after.nodes@[self.chains@[c][i] as int].next == slot_at(self.chains@[c], i + 1),
    {
        self.lemma_live(0, slot);
        self.lemma_chain_at(0, c, i);
        let b = self.bucket_of_slot(slot);
        let chain = self.chains@[b];
        let p = chain.index_of(slot);
        assert(chain[p] == slot);
        let s = self.chains@[c][i];
        self.lemma_unlink_live(after, slot, s);
        lemma_slot_at(chain, p - 1);
        lemma_slot_at(chain, p + 1);
        if p > 0 {
            self.lemma_chain_at(0, b, p - 1);
        }
        if p + 1 < chain.len() {
            self.lemma_chain_at(0, b, p + 1);
        }
        assert(after.nodes@[s as int].key == self.nodes@[s as int].key);
    }

    /// After an eviction the slot at place `i` of the shortened chain is
    /// linked to its new neighbours.
    proof fn lemma_unlink_same(&self, after: &BufferPool, slot: usize, i: int)
        requires
            self.inv(0),
            self.unlink_of(after, slot),
            0 <= i < self.chains@[self.bucket_of_slot(slot)].len() - 1,
        ensures
            ({
                let b = self.bucket_of_slot(slot);
                let chain = self.chains@[b];
                let gone = chain.remove(chain.index_of(slot));
                &&& after.live(gone[i])
                &&& after.bucket_of_slot(gone[i]) == b
                &&& after.nodes@[gone[i] as int].prev == slot_at(gone, i - 1)
                &&& after.nodes@[gone[i] as int].next == slot_at(gone, i + 1)
            }),
    {
        self.lemma_live(0, slot);
        let b = self.bucket_of_slot(slot);
        let chain = self.chains@[b];
        let p = chain.index_of(slot);
        assert(chain[p] == slot);
        let gone = chain.remove(p);
        let k = if i < p {
            i
        } else {
            i + 1
        };
        assert(gone[i] == chain[k]);
        let s = chain[k];
        self.lemma_chain_at(0, b, k);
        self.lemma_unlink_live(after, slot, s);
        assert(s != slot);
        lemma_slot_at(chain, p - 1);
        lemma_slot_at(chain, p + 1);
        lemma_slot_at(chain, k - 1);
        lemma_slot_at(chain, k + 1);
        lemma_slot_at(gone, i - 1);
        lemma_slot_at(gone, i + 1);
        if i > 0 {
            assert(gone[i - 1] == chain[if i - 1 < p {
                i - 1
            } else {
                i
            }]);
        }
        if i + 1 < gone.len() {
            assert(gone[i + 1] == chain[if i + 1 < p {
                i + 1
            } else {
                i + 2
            }]);
        }
        assert(after.nodes@[s as int].key == self.nodes@[s as int].key);
        if p + 1 < chain.len() && s == chain[p + 1] {
            assert(k == p + 1);
        }
        if p > 0 && s == chain[p - 1] {
            assert(k == p - 1);
        }
    }

    /// After an eviction the chain of bucket `c` is well linked.
    proof fn lemma_unlink_chain(&self, after: &BufferPool, slot: usize, c: int)
        requires
            self.inv(0),
            self.unlink_of(after, slot),
            0 <= c < self.size,
        ensures
            after.chain_ok(c),
    {
        self.lemma_live(0, slot);
        self.lemma_chain(0, c);
        let b = self.bucket_of_slot(slot);
        let chain = self.chains@[b];
        let p = chain.index_of(slot);
        assert(chain[p] == slot);
        let cc = after.chains@[c];
        lemma_slot_at(chain, p - 1);
        lemma_slot_at(chain, p + 1);
        if c == b {
            let gone = chain.remove(p);
            assert(cc == gone);
            assert forall|i: int, j: int| 0 <= i < j < gone.len() implies gone[i] != gone[j] by {
                let ki = if i < p {
                    i
                } else {
                    i + 1
                };
                let kj = if j < p {
                    j
                } else {
                    j + 1
                };
                assert(gone[i] == chain[ki] && gone[j] == chain[kj]);
            }
            assert forall|i: int| 0 <= i < cc.len() implies {
                let s = #[trigger] cc[i];
                &&& after.live(s)
                &&& after.bucket_of_slot(s) == c
                &&& after.nodes@[s as int].prev == slot_at(cc, i - 1)
                &&& after.nodes@[s as int].next == slot_at(cc, i + 1)
            } by {
                self.lemma_unlink_same(after, slot, i);
            }
            assert(after.buffer@[c] == slot_at(cc, 0)) by {
                lemma_slot_at(cc, 0);
                lemma_slot_at(chain, 0);
                if p == 0 {
                    if gone.len() > 0 {
                        assert(gone[0] == chain[1]);
                    }
                } else {
                    assert(gone[0] == chain[0]);
                }
            }
        } else {
            assert(cc == self.chains@[c]);
            assert(after.buffer@[c] == self.buffer@[c]);
            assert forall|i: int| 0 <= i < cc.len() implies {
                let s = #[trigger] cc[i];
                &&& after.live(s)
                &&& after.bucket_of_slot(s) == c
                &&& after.nodes@[s as int].prev == slot_at(cc, i - 1)
                &&& after.nodes@[s as int].next == slot_at(cc, i + 1)
            } by {
                self.lemma_unlink_other(after, slot, c, i);
            }
        }
    }

    /// After an eviction each chain holds the entries that it held, without
    /// the evicted one.
    proof fn lemma_unlink_bucket(&self, after: &BufferPool, slot: usize, c: int)
        requires
            self.inv(0),
            self.unlink_of(after, slot),
            0 <= c < self.size,
        ensures
            after.bucket(c) == chain_without(self.bucket(c), self@[0]),
    {
        self.open_inv(0);
        self.lemma_live(0, slot);
        let b = self.bucket_of_slot(slot);
        let chain = self.chains@[b];
        let p = chain.index_of(slot);
        assert(chain[p] == slot);
        let gone = self@[0];
        assert(gone == self.nodes@[slot as int].entry());
        let held = self.chains@[c];
        assert(self.chain_ok(c));
        assert(self.chain_ok(b));
        assert forall|q: int| 0 <= q < held.len() && self.bucket(c)[q] == gone implies c == b
            && q == p by {
            let t = held[q];
            assert(self.live(t));
            if t != slot {
                assert(self.live(t) && self.live(slot));
                assert(self.nodes@[t as int].key@ != self.nodes@[slot as int].key@);
            }
            assert(self.bucket_of_slot(t) == c);
        }
        assert forall|q: int| 0 <= q < held.len() implies self.live(#[trigger] held[q])
            && held[q] < self.nodes@.len() by {
            self.lemma_live(0, held[q]);
        }
        if c == b {
            assert(self.bucket(c)[p] == gone);
            assert(self.bucket(c).contains(gone));
            let q = self.bucket(c).index_of(gone);
            assert(q == p);
            assert(after.bucket(c) =~= self.bucket(c).remove(p));
        } else {
            assert(!self.bucket(c).contains(gone));
            assert(after.bucket(c) =~= self.bucket(c));
        }
    }

    /// An eviction keeps the invariant, with one slot spare, and takes the
    /// first entry out of the view.
    proof fn lemma_unlink(&self, after: &BufferPool, slot: usize)
        requires
            self.inv(0),
            self.unlink_of(after, slot),
        ensures
            after.inv(1),
            after@ == self@.drop_first(),
            self.buckets_evict(after),
    {
        assert forall|c: int| 0 <= c < self.size implies #[trigger] after.bucket(c)
            == chain_without(self.bucket(c), self@[0]) by {
            self.lemma_unlink_bucket(after, slot, c);
        }
        self.lemma_live(0, slot);
        let b = self.bucket_of_slot(slot);
        let chain = self.chains@[b];
        let p = chain.index_of(slot);
        let gone = chain.remove(p);
        assert forall|c: int| 0 <= c < after.size implies #[trigger] after.chain_ok(c) by {
            self.lemma_unlink_chain(after, slot, c);
        }
        assert forall|s: usize| #[trigger] after.live(s) implies after.chains@[after.bucket_of_slot(
            s,
        )].contains(s) && after.lru.data_of(s) == Some(s) && after.nodes@[s as int].lru_node
            == s by {
            self.lemma_unlink_live(after, slot, s);
            self.lemma_live(0, s);
            let c = self.bucket_of_slot(s);
            assert(after.nodes@[s as int].key == self.nodes@[s as int].key);
            assert(after.bucket_of_slot(s) == c);
            if c == b {
                let i = chain.index_of(s);
                assert(chain[i] == s);
                if i < p {
                    assert(gone[i] == s);
                } else {
                    assert(gone[i - 1] == s);
                }
            }
        }
        assert forall|s: usize, t: usize|
            #![trigger after.live(s), after.live(t)]
            after.live(s) && after.live(t) && s != t implies after.nodes@[s as int].key@
            != after.nodes@[t as int].key@ by {
            self.lemma_unlink_live(after, slot, s);
            self.lemma_unlink_live(after, slot, t);
            self.lemma_live(0, s);
            self.lemma_live(0, t);
            self.open_inv(0);
            assert(self.live(s) && self.live(t));
            assert(after.nodes@[s as int].key == self.nodes@[s as int].key);
            assert(after.nodes@[t as int].key == self.nodes@[t as int].key);
        }
        assert(after.inv_body(1)) by {
            self.open_inv(0);
        }
        after.close_inv(1);
        let live = self.lru.handles();
        assert forall|i: int| 0 <= i < after@.len() implies after@[i] == self@.drop_first()[i] by {
            assert(live.contains(live[i + 1]));
            self.lemma_live(0, live[i + 1]);
            assert(after.nodes@[live[i + 1] as int].key == self.nodes@[live[i + 1] as int].key);
        }
        assert(after@ =~= self@.drop_first());
    }

    /// Takes the page at the front of the eviction queue out of the cache;
    /// says whether there was one.
    fn run_eviction(&mut self) -> (evicted: bool)
        requires
            old(self).inv(0),
        ensures
            final(self).size == old(self).size,
            evicted == (old(self)@.len() > 0),
            evicted ==> final(self).inv(1) && final(self)@ == old(self)@.drop_first() && old(
                self,
            ).buckets_evict(final(self)),
            !evicted ==> *final(self) == *old(self),
    {
        let ghost before = *self;
        let ghost live = self.lru.handles();
        proof {
            before.open_inv(0);
            if live.len() > 0 {
                assert(before.live(live[0]));
                before.lemma_live(0, live[0]);
            }
        }
        if self.lru.is_empty() {
            return false;
        }
        match self.lru.next_to_evict() {
            Some(slot) => {
                let ghost b = before.bucket_of_slot(slot);
                let ghost chain = before.chains@[b];
                let ghost p = chain.index_of(slot);
                proof {
                    assert(slot == live[0]);
                    assert(chain[p] == slot);
                    before.lemma_chain_at(0, b, p);
                    lemma_slot_at(chain, p - 1);
                    lemma_slot_at(chain, p + 1);
                    lemma_slot_at(chain, 0);
                    if p > 0 {
                        before.lemma_chain_at(0, b, p - 1);
                    }
                    if p + 1 < chain.len() {
                        before.lemma_chain_at(0, b, p + 1);
                    }
                }
                let prev_wrapped: Option<usize> = self.nodes[slot].prev;
                let next_wrapped: Option<usize> = self.nodes[slot].next;
                match prev_wrapped {
                    Some(prev) => {
                        self.nodes[prev].next = next_wrapped;
                    },
                    None => {
                        let hash: usize = custom_hash(&self.nodes[slot].key, self.size);
                        self.buffer[hash] = next_wrapped;
                    },
                }
                match next_wrapped {
                    Some(next) => {
                        self.nodes[next].prev = prev_wrapped;
                    },
                    None => {},
                }
                self.nodes[slot].prev = None;
                self.nodes[slot].next = None;
                self.chains = Ghost(self.chains@.update(b, chain.remove(p)));
                self.curr_size -= 1;
                proof {
                    assert(same_pages(before.nodes@, self.nodes@));
                    assert(self.buffer@ =~= if prev_wrapped is None {
                        before.buffer@.update(b, next_wrapped)
                    } else {
                        before.buffer@
                    });
                    assert(before.unlink_of(&*self, slot));
                    before.lemma_unlink(&*self, slot);
                }
                true
            },
            None => {
                proof {
                    assert(before.lru.data_of(live[0]) == Some(live[0]));
                }
                false
            },
        }
    }
}


impl BufferPool {
    /// `after` is `self` with the page `page` under the name `key` added in
    /// the slot `slot`: at the head of its chain and at the back of the
    /// eviction queue.
    spec fn link_of(
        &self,
        after: &BufferPool,
        slot: usize,
        key: (Seq<char>, nat),
        page: Seq<(i64, i64)>,
    ) -> bool {
        let b = bucket_of(key.0, key.1, self.size as nat) as int;
        let chain = self.chains@[b];
        let head = slot_at(chain, 0);
        &&& slot == self.lru.next_handle()
        &&& after.size == self.size
        &&& after.curr_size == self.curr_size + 1
        &&& after.nodes@.len() == if slot == self.nodes@.len() {
            self.nodes@.len() + 1
        } else {
            self.nodes@.len()
        }
        &&& after.nodes@[slot as int].key@ == key
        &&& after.nodes@[slot as int].page@ == page
        &&& after.nodes@[slot as int].lru_node == slot
        &&& after.nodes@[slot as int].prev == None::<usize>
        &&& after.nodes@[slot as int].next == head
        &&& forall|s: int|
            0 <= s < self.nodes@.len() && s != slot ==> (#[trigger] after.nodes@[s]).key
                == self.nodes@[s].key && after.nodes@[s].page == self.nodes@[s].page
                && after.nodes@[s].lru_node == self.nodes@[s].lru_node && after.nodes@[s].next
                == self.nodes@[s].next && after.nodes@[s].prev == (if Some(s as usize) == head {
                Some(slot)
            } else {
                self.nodes@[s].prev
            })
        &&& after.buffer@ == self.buffer@.update(b, Some(slot))
        &&& after.chains@ == self.chains@.update(b, seq![slot] + chain)
        &&& after.lru.wf()
        &&& after.lru.slots() == after.nodes@.len()
        &&& after.lru.handles() == self.lru.handles().push(slot)
        &&& after.lru.data_of(slot) == Some(slot)
        &&& forall|h: usize|
            self.lru.handles().contains(h) ==> after.lru.data_of(h) == self.lru.data_of(h)
        &&& forall|s: usize| #[trigger] self.live(s) ==> self.nodes@[s as int].key@ != key
    }

    /// After a page was added the slots that hold a page are those that did,
    /// and the new one.
    proof fn lemma_link_live(
        &self,
        after: &BufferPool,
        slot: usize,
        key: (Seq<char>, nat),
        page: Seq<(i64, i64)>,
        spare: nat,
        s: usize,
    )
        requires
            self.inv(spare),
            self.link_of(after, slot, key, page),
        ensures
            after.live(s) == (self.live(s) || s == slot),
            !self.live(slot),
            slot <= self.nodes@.len(),
            self.live(s) ==> s != slot && s < self.nodes@.len() && after.nodes@[s as int].key
                == self.nodes@[s as int].key && after.bucket_of_slot(s) == self.bucket_of_slot(s),
    {
        self.open_inv(spare);
        self.lru.lemma_handles();
        let live = self.lru.handles();
        let grown = after.lru.handles();
        if after.live(s) {
            let i = grown.index_of(s);
            assert(grown[i] == s);
            if i < live.len() {
                assert(live[i] == s);
            }
        }
        if self.live(s) {
            let i = live.index_of(s);
            assert(live[i] == s);
            assert(grown[i] == s);
        }
        assert(grown[live.len() as int] == slot);
    }

    /// After a page was added the chain of bucket `c` is well linked.
    proof fn lemma_link_chain(
        &self,
        after: &BufferPool,
        slot: usize,
        key: (Seq<char>, nat),
        page: Seq<(i64, i64)>,
        spare: nat,
        c: int,
    )
        requires
            self.inv(spare),
            self.size > 0,
            self.link_of(after, slot, key, page),
            0 <= c < self.size,
        ensures
            after.chain_ok(c),
    {
        self.lemma_chain(spare, c);
        let b = bucket_of(key.0, key.1, self.size as nat) as int;
        self.lemma_chain(spare, b);
        let chain = self.chains@[b];
        let cc = after.chains@[c];
        lemma_slot_at(chain, 0);
        self.lemma_link_live(after, slot, key, page, spare, slot);
        if c == b {
            let grown = seq![slot] + chain;
            assert(cc == grown);
            assert forall|i: int| 0 < i < grown.len() implies grown[i] == chain[i - 1] by {}
            assert(grown[0] == slot);
            assert forall|i: int, j: int| 0 <= i < j < grown.len() implies grown[i] != grown[j] by {
                if i == 0 {
                    self.lemma_chain_at(spare, b, j - 1);
                }
            }
            assert(after.buffer@[c] == slot_at(cc, 0)) by {
                lemma_slot_at(cc, 0);
            }
            assert forall|i: int| 0 <= i < cc.len() implies {
                let s = #[trigger] cc[i];
                &&& after.live(s)
                &&& after.bucket_of_slot(s) == c
                &&& after.nodes@[s as int].prev == slot_at(cc, i - 1)
                &&& after.nodes@[s as int].next == slot_at(cc, i + 1)
            } by {
                let s = cc[i];
                self.lemma_link_live(after, slot, key, page, spare, s);
                lemma_slot_at(cc, i - 1);
                lemma_slot_at(cc, i + 1);
                if i > 0 {
                    self.lemma_chain_at(spare, b, i - 1);
                    lemma_slot_at(chain, i - 2);
                    lemma_slot_at(chain, i);
                    if i + 1 < cc.len() {
                        assert(cc[i + 1] == chain[i]);
                    }
                    if i > 1 {
                        assert(cc[i - 1] == chain[i - 2]);
                        assert(chain[i - 1] != chain[0]);
                    }
                } else {
                    if cc.len() > 1 {
                        assert(cc[1] == chain[0]);
                    }
                }
            }
        } else {
            assert(cc == self.chains@[c]);
            assert(after.buffer@[c] == self.buffer@[c]);
            assert forall|i: int| 0 <= i < cc.len() implies {
                let s = #[trigger] cc[i];
                &&& after.live(s)
                &&& after.bucket_of_slot(s) == c
                &&& after.nodes@[s as int].prev == slot_at(cc, i - 1)
                &&& after.nodes@[s as int].next == slot_at(cc, i + 1)
            } by {
                let s = cc[i];
                self.lemma_chain_at(spare, c, i);
                self.lemma_link_live(after, slot, key, page, spare, s);
                if chain.len() > 0 {
                    self.lemma_chain_at(spare, b, 0);
                }
            }
        }
    }

    /// Adding a page keeps the invariant, uses up a spare slot where there
    /// was one, and puts the page at the end of the view.
    proof fn lemma_link(
        &self,
        after: &BufferPool,
        slot: usize,
        key: (Seq<char>, nat),
        page: Seq<(i64, i64)>,
        spare: nat,
    )
        requires
            self.inv(spare),
            spare <= 1,
            self.curr_size < self.size,
            self.link_of(after, slot, key, page),
        ensures
            after.inv(0),
            after@ == self@.push(CacheEntry { name: key.0, offset: key.1, page }),
            forall|c: int|
                0 <= c < self.size ==> #[trigger] after.bucket(c) == (if c == bucket_of(
                    key.0,
                    key.1,
                    self.size as nat,
                ) {
                    seq![CacheEntry { name: key.0, offset: key.1, page }] + self.bucket(c)
                } else {
                    self.bucket(c)
                }),
    {
        let b = bucket_of(key.0, key.1, self.size as nat) as int;
        let chain = self.chains@[b];
        self.lemma_chain(spare, b);
        assert forall|c: int| 0 <= c < self.size implies #[trigger] after.bucket(c) == (if c
            == b {
            seq![CacheEntry { name: key.0, offset: key.1, page }] + self.bucket(c)
        } else {
            self.bucket(c)
        }) by {
            self.open_inv(spare);
            self.lru.lemma_handles();
            let held = self.chains@[c];
            assert(self.chain_ok(c));
            assert forall|q: int| 0 <= q < held.len() implies (#[trigger] held[q]) != slot
                && held[q] < self.nodes@.len() && after.nodes@[held[q] as int].entry()
                == self.nodes@[held[q] as int].entry() by {
                assert(self.live(held[q]));
                self.lemma_live(spare, held[q]);
                self.lemma_link_live(after, slot, key, page, spare, held[q]);
            }
            if c == b {
                assert(after.bucket(c) =~= seq![CacheEntry { name: key.0, offset: key.1, page }]
                    + self.bucket(c));
            } else {
                assert(after.bucket(c) =~= self.bucket(c));
            }
        }
        self.lemma_link_live(after, slot, key, page, spare, slot);
        assert forall|c: int| 0 <= c < after.size implies #[trigger] after.chain_ok(c) by {
            self.lemma_link_chain(after, slot, key, page, spare, c);
        }
        assert forall|s: usize| #[trigger] after.live(s) implies after.chains@[after.bucket_of_slot(
            s,
        )].contains(s) && after.lru.data_of(s) == Some(s) && after.nodes@[s as int].lru_node
            == s by {
            self.lemma_link_live(after, slot, key, page, spare, s);
            let grown = seq![slot] + chain;
            if s == slot {
                assert(grown[0] == slot);
            } else {
                self.lemma_live(spare, s);
                let c = self.bucket_of_slot(s);
                if c == b {
                    let i = chain.index_of(s);
                    assert(chain[i] == s);
                    assert(grown[i + 1] == s);
                }
            }
        }
        assert forall|s: usize, t: usize|
            #![trigger after.live(s), after.live(t)]
            after.live(s) && after.live(t) && s != t implies after.nodes@[s as int].key@
            != after.nodes@[t as int].key@ by {
            self.lemma_link_live(after, slot, key, page, spare, s);
            self.lemma_link_live(after, slot, key, page, spare, t);
            self.open_inv(spare);
            if s != slot && t != slot {
                assert(self.live(s) && self.live(t));
            }
        }
        assert(after.inv_body(0)) by {
            self.open_inv(spare);
            self.lru.lemma_handles();
        }
        after.close_inv(0);
        let live = self.lru.handles();
        let want = self@.push(CacheEntry { name: key.0, offset: key.1, page });
        assert forall|i: int| 0 <= i < after@.len() implies after@[i] == want[i] by {
            if i < live.len() {
                assert(live.contains(live[i]));
                self.lemma_link_live(after, slot, key, page, spare, live[i]);
            }
        }
        assert(after@ =~= want);
    }

    /// Adds the page `page` under the name `key`. Where the cache is full,
    /// the page that was used longest ago leaves first.
    pub fn insert(&mut self, key: BufferKey, page: Vec<(i64, i64)>)
        requires
            old(self).wf(),
            old(self).capacity() > 0,
            !holds(old(self)@, key@.0, key@.1),
        ensures
            final(self).wf(),
            final(self).capacity() == old(self).capacity(),
            final(self)@ == admitted(
                old(self)@,
                old(self).capacity(),
                CacheEntry { name: key@.0, offset: key@.1, page: page@ },
            ),
            old(self).buckets_admit(
                final(self),
                CacheEntry { name: key@.0, offset: key@.1, page: page@ },
            ),
    {
        let ghost start = *self;
        let ghost spare: nat = 0;
        proof {
            start.open_inv(0);
            start.lru.lemma_handles();
            assert forall|s: usize| #[trigger] start.live(s) implies start.nodes@[s as int].key@
                != key@ by {
                let i = start.lru.handles().index_of(s);
                assert(start.lru.handles()[i] == s);
                if start.nodes@[s as int].key@ == key@ {
                    assert(start@[i].name == key@.0 && start@[i].offset == key@.1);
                }
            }
        }
        if self.curr_size == self.size {
            let evicted: bool = self.run_eviction();
            proof {
                spare = 1;
                assert(start@.len() == start.curr_size);
                assert(evicted);
                assert forall|s: usize| #[trigger] self.live(s) implies self.nodes@[s as int].key@
                    != key@ by {
                    let i = self.lru.handles().index_of(s);
                    assert(self.lru.handles()[i] == s);
                    self.lemma_live(1, s);
                    assert(0 <= i < self.lru.handles().len());
                    assert(self@.len() == self.lru.handles().len());
                    assert(start@.len() >= 1);
                    assert(self@.len() == start@.len() - 1);
                    if self.nodes@[s as int].key@ == key@ {
                        assert(self@[i].name == key@.0 && self@[i].offset == key@.1);
                        assert(self@[i] == start@.drop_first()[i]);
                        assert(start@[i + 1].name == key@.0 && start@[i + 1].offset == key@.1);
                    }
                }
            }
        }
        let ghost before = *self;
        proof {
            before.open_inv(spare);
            before.lru.lemma_handles();
        }
        let hash: usize = custom_hash(&key, self.size);
        let ghost chain = before.chains@[hash as int];
        proof {
            before.lemma_chain(spare, hash as int);
            lemma_slot_at(chain, 0);
            if chain.len() > 0 {
                before.lemma_chain_at(spare, hash as int, 0);
            }
        }
        let slot: usize = self.lru.peek_handle();
        let mut lru_node: LRUNode = LRUNode::new(None);
        lru_node.set_data(Some(slot));
        let handle: usize = self.lru.add_node(lru_node);
        let ghost key_view = key@;
        let ghost page_view = page@;
        let mut new_node: BufferNode = BufferNode::new(key, page, handle);
        let old_root: Option<usize> = self.buffer[hash];
        new_node.next = old_root;
        if let Some(root) = old_root {
            self.nodes[root].prev = Some(slot);
        }
        if slot == self.nodes.len() {
            self.nodes.push(new_node);
        } else {
            self.nodes[slot] = new_node;
        }
        self.buffer[hash] = Some(slot);
        self.chains = Ghost(self.chains@.update(hash as int, seq![slot] + chain));
        self.curr_size += 1;
        proof {
            let b = bucket_of(key_view.0, key_view.1, before.size as nat) as int;
            assert(b == hash);
            let head = slot_at(chain, 0);
            assert(head == old_root);
            assert(slot == before.lru.next_handle());
            assert(self.nodes@.len() == if slot == before.nodes@.len() {
                before.nodes@.len() + 1
            } else {
                before.nodes@.len()
            });
            assert(self.nodes@[slot as int].key@ == key_view);
            assert(self.nodes@[slot as int].page@ == page_view);
            assert(self.nodes@[slot as int].lru_node == slot);
            assert(self.nodes@[slot as int].prev == None::<usize>);
            assert(self.nodes@[slot as int].next == head);
            assert(self.lru.slots() == self.nodes@.len());
            assert(self.lru.data_of(slot) == Some(slot));
            assert(forall|s: usize| #[trigger]
                before.live(s) ==> before.nodes@[s as int].key@ != key_view);
            assert(before.link_of(&*self, slot, key_view, page_view));
            before.lemma_link(&*self, slot, key_view, page_view, spare);
            let entry = CacheEntry { name: key_view.0, offset: key_view.1, page: page_view };
            assert forall|c: int| 0 <= c < start.capacity() implies #[trigger] self.bucket(c)
                == chain_admitted(start@, start.capacity(), start.bucket(c), c, entry) by {
                assert(start@.len() == start.curr_size);
                if spare == 1 {
                    assert(before.bucket(c) == chain_without(start.bucket(c), start@[0]));
                } else {
                    assert(before.bucket(c) == start.bucket(c));
                }
            }
        }
    }
}


/// A use of a cached page keeps the cache in step with the disk.
pub proof fn lemma_touched_coherent(view: Seq<CacheEntry>, i: int, disk: Disk)
    requires
        coherent(view, disk),
        0 <= i < view.len(),
    ensures
        coherent(touched(view, i), disk),
{
    let after = touched(view, i);
    assert forall|j: int|
        0 <= j < after.len() && disk.has_page(
            (#[trigger] after[j]).name,
            after[j].offset as int,
        ) implies after[j].page == decode_page(
        disk.page_bytes(after[j].name, after[j].offset as int),
    ) by {
        if j < i {
            assert(after[j] == view[j]);
        } else if j < view.len() - 1 {
            assert(after[j] == view[j + 1]);
        } else {
            assert(after[j] == view[i]);
        }
    }
}

/// Adding a page as the disk holds it keeps the cache in step with the disk.
pub proof fn lemma_admitted_coherent(
    view: Seq<CacheEntry>,
    capacity: nat,
    entry: CacheEntry,
    disk: Disk,
)
    requires
        coherent(view, disk),
        disk.has_page(entry.name, entry.offset as int) ==> entry.page == decode_page(
            disk.page_bytes(entry.name, entry.offset as int),
        ),
    ensures
        coherent(admitted(view, capacity, entry), disk),
{
    let after = admitted(view, capacity, entry);
    assert forall|j: int|
        0 <= j < after.len() && disk.has_page(
            (#[trigger] after[j]).name,
            after[j].offset as int,
        ) implies after[j].page == decode_page(
        disk.page_bytes(after[j].name, after[j].offset as int),
    ) by {
        if j == after.len() - 1 {
            assert(after[j] == entry);
        } else if view.len() >= capacity && view.len() > 0 {
            assert(after[j] == view[j + 1]);
        } else {
            assert(after[j] == view[j]);
        }
    }
}

/// The view after the pages `reads` were read, one after the other, through
/// a cache that holds at most `capacity` pages and held `view` before.
pub open spec fn after_reads(view: Seq<CacheEntry>, capacity: nat, reads: Seq<CacheEntry>) -> Seq<
    CacheEntry,
>
    decreases reads.len(),
{
    if reads.len() == 0 {
        view
    } else {
        after_read(after_reads(view, capacity, reads.drop_last()), capacity, reads.last())
    }
}

/// After reads of distinct pages through a cache that was empty, the cache
/// holds the pages read last, as many as its capacity allows, in the order
/// in which they were read.
pub proof fn lemma_lru_keeps_latest(capacity: nat, reads: Seq<CacheEntry>)
    requires
        capacity > 0,
        distinct_pages(reads),
    ensures
        after_reads(Seq::empty(), capacity, reads) == reads.subrange(
            if reads.len() > capacity {
                reads.len() - capacity
            } else {
                0
            },
            reads.len() as int,
        ),
    decreases reads.len(),
{
    let n = reads.len() as int;
    if n == 0 {
        assert(reads.subrange(0, 0) =~= Seq::<CacheEntry>::empty());
    } else {
        let front = reads.drop_last();
        let last = reads.last();
        assert forall|i: int, j: int| 0 <= i < j < front.len() implies !((
        #[trigger] front[i]).name == (#[trigger] front[j]).name && front[i].offset
            == front[j].offset) by {
            assert(front[i] == reads[i] && front[j] == reads[j]);
        }
        lemma_lru_keeps_latest(capacity, front);
        let from = if n - 1 > capacity {
            n - 1 - capacity
        } else {
            0
        };
        let held = front.subrange(from, n - 1);
        assert(after_reads(Seq::empty(), capacity, front) == held);
        if holds(held, last.name, last.offset) {
            let i = place_of(held, last.name, last.offset);
            assert(held[i] == reads[from + i]);
            assert(!(reads[from + i].name == reads[n - 1].name && reads[from + i].offset
                == reads[n - 1].offset));
        }
        let want = reads.subrange(
            if n > capacity {
                n - capacity
            } else {
                0
            },
            n,
        );
        assert(admitted(held, capacity, last) =~= want);
    }
}

impl BufferPool {
    /// The records of the page at `page_offset` of the file `sst_name`: from
    /// the cache where it holds the page, else from `disk`, and then the
    /// cache takes the page in, unless its capacity is 0.
    pub fn find_page(&mut self, disk: &Disk, sst_name: &str, page_offset: usize) -> (page: Vec<
        (i64, i64),
    >)
        requires
            old(self).wf(),
            holds(old(self)@, sst_name@, page_offset as nat) || disk.has_page(
                sst_name@,
                page_offset as int,
            ),
        ensures
            final(self).wf(),
            final(self).capacity() == old(self).capacity(),
            page@ == if holds(old(self)@, sst_name@, page_offset as nat) {
                old(self)@[place_of(old(self)@, sst_name@, page_offset as nat)].page
            } else {
                decode_page(disk.page_bytes(sst_name@, page_offset as int))
            },
            final(self)@ == after_read(
                old(self)@,
                old(self).capacity(),
                CacheEntry { name: sst_name@, offset: page_offset as nat, page: page@ },
            ),
            if holds(old(self)@, sst_name@, page_offset as nat) || old(self).capacity() == 0 {
                old(self).buckets_kept(final(self))
            } else {
                old(self).buckets_admit(
                    final(self),
                    CacheEntry { name: sst_name@, offset: page_offset as nat, page: page@ },
                )
            },
            coherent(old(self)@, *disk) && disk.has_page(sst_name@, page_offset as int) ==> page@
                == decode_page(disk.page_bytes(sst_name@, page_offset as int)) && coherent(
                final(self)@,
                *disk,
            ),
            forall|names: Set<Seq<char>>|
                #![trigger names_within(old(self)@, names)]
                names_within(old(self)@, names) && names.contains(sst_name@) ==> names_within(
                    final(self)@,
                    names,
                ),
    {
        let ghost before = self@;
        let key: BufferKey = BufferKey::new(String::from_str(sst_name), page_offset);
        if let Some(page) = self.find_buffer_page(&key) {
            proof {
                let at = place_of(before, sst_name@, page_offset as nat);
                if coherent(before, *disk) {
                    lemma_touched_coherent(before, at, *disk);
                }
                assert forall|names: Set<Seq<char>>|
                    #![trigger names_within(before, names)]
                    names_within(before, names) && names.contains(sst_name@) implies names_within(
                    self@,
                    names,
                ) by {
                    lemma_read_within(
                        before,
                        self.capacity(),
                        CacheEntry { name: sst_name@, offset: page_offset as nat, page: page@ },
                        names,
                    );
                }
            }
            return page;
        }
        let page: Vec<(i64, i64)> = deserialize_page(disk, sst_name, page_offset);
        if self.size > 0 {
            let copy: Vec<(i64, i64)> = crate::records::copy_records(&page);
            self.insert(key, copy);
            proof {
                if coherent(before, *disk) {
                    lemma_admitted_coherent(
                        before,
                        self.capacity(),
                        CacheEntry { name: sst_name@, offset: page_offset as nat, page: page@ },
                        *disk,
                    );
                }
            }
        }
        proof {
            assert forall|names: Set<Seq<char>>|
                #![trigger names_within(before, names)]
                names_within(before, names) && names.contains(sst_name@) implies names_within(
                self@,
                names,
            ) by {
                lemma_read_within(
                    before,
                    self.capacity(),
                    CacheEntry { name: sst_name@, offset: page_offset as nat, page: page@ },
                    names,
                );
            }
        }
        page
    }

    /// The pages in the chain of the bucket `bucket`, from the head on.
    pub fn bucket_pages(&self, bucket: usize) -> (pages: Vec<Vec<(i64, i64)>>)
        requires
            self.wf(),
            bucket < self.capacity(),
        ensures
            pages@.len() == self.bucket(bucket as int).len(),
            forall|i: int|
                0 <= i < pages@.len() ==> (#[trigger] pages@[i])@ == self.bucket(bucket as int)[i].page,
    {
        let ghost chain = self.chains@[bucket as int];
        proof {
            self.lemma_chain(0, bucket as int);
            lemma_slot_at(chain, 0);
        }
        let mut pages: Vec<Vec<(i64, i64)>> = Vec::new();
        let mut cur: Option<usize> = self.buffer[bucket];
        while cur.is_some()
            invariant
                self.inv(0),
                bucket < self.size,
                chain == self.chains@[bucket as int],
                pages@.len() <= chain.len(),
                cur == if pages@.len() < chain.len() {
                    Some(chain[pages@.len() as int])
                } else {
                    None
                },
                forall|i: int|
                    0 <= i < pages@.len() ==> (#[trigger] pages@[i])@
                        == self.nodes@[chain[i] as int].entry().page,
            decreases chain.len() - pages@.len(),
        {
            let slot: usize = cur.unwrap();
            proof {
                self.lemma_chain_at(0, bucket as int, pages@.len() as int);
                lemma_slot_at(chain, pages@.len() as int + 1);
            }
            pages.push(self.nodes[slot].get_page_data());
            cur = self.nodes[slot].next;
        }
        pages
    }
}

} // verus!
