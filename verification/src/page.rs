//! The page format: sixteen-byte records, big-endian key then big-endian
//! value, followed by padding blocks up to the next multiple of the page size.

use vstd::prelude::*;

verus! {

/// Bytes in one page.
pub const PAGE_SIZE: usize = 4096;

/// Bytes in one record, and in one padding block.
pub const RECORD_SIZE: usize = 16;

/// Records that fit in one page.
pub const ENTRIES: usize = 256;

/// The byte that padding holds at position `i`: `de ad be ef` repeating.
pub open spec fn pad_byte(i: int) -> u8 {
    if i % 4 == 0 {
        0xde
    } else if i % 4 == 1 {
        0xad
    } else if i % 4 == 2 {
        0xbe
    } else {
        0xef
    }
}

/// Byte `j` (0 is the most significant) of the two's complement form of `x`.
pub open spec fn be_byte(x: i64, j: int) -> u8 {
    (((x as u64) >> ((8 * (7 - j)) as u64)) & 0xff) as u8
}

/// The integer whose big-endian two's complement form is `b[at..at + 8]`.
pub open spec fn be_value(b: Seq<u8>, at: int) -> i64 {
    (((b[at] as u64) << 56) | ((b[at + 1] as u64) << 48) | ((b[at + 2] as u64) << 40) | ((b[at
        + 3] as u64) << 32) | ((b[at + 4] as u64) << 24) | ((b[at + 5] as u64) << 16) | ((b[at
        + 6] as u64) << 8) | (b[at + 7] as u64)) as i64
}

/// Byte `j` of the sixteen bytes that stand for the record `r`.
pub open spec fn record_byte(r: (i64, i64), j: int) -> u8 {
    if j < 8 {
        be_byte(r.0, j)
    } else {
        be_byte(r.1, j - 8)
    }
}

/// The records laid end to end, sixteen bytes each, without padding.
pub open spec fn records_bytes(rs: Seq<(i64, i64)>) -> Seq<u8> {
    Seq::new(16 * rs.len(), |i: int| record_byte(rs[i / 16], i % 16))
}

/// The least multiple of the page size that is at least `n`.
pub open spec fn page_ceil(n: nat) -> nat {
    if n % 4096 == 0 {
        n
    } else {
        (n + 4096 - n % 4096) as nat
    }
}

/// `bytes` followed by padding up to the next multiple of the page size.
pub open spec fn padded(bytes: Seq<u8>) -> Seq<u8> {
    Seq::new(
        page_ceil(bytes.len()),
        |i: int|
            if i < bytes.len() {
                bytes[i]
            } else {
                pad_byte(i)
            },
    )
}

/// What a run of records looks like on disk: the records, then padding.
pub open spec fn pages_image(rs: Seq<(i64, i64)>) -> Seq<u8> {
    padded(records_bytes(rs))
}

/// Block `k` of `page` holds exactly the padding pattern.
pub open spec fn is_padding_block(page: Seq<u8>, k: int) -> bool {
    forall|j: int| 0 <= j < 16 ==> #[trigger] page[16 * k + j] == pad_byte(j)
}

/// The number of leading blocks left once trailing padding blocks are
/// dropped from the first `n` blocks of `page`.
pub open spec fn data_blocks(page: Seq<u8>, n: nat) -> nat
    decreases n,
{
    if n > 0 && is_padding_block(page, n - 1) {
        data_blocks(page, (n - 1) as nat)
    } else {
        n
    }
}

/// The record held by block `k` of `page`.
pub open spec fn record_at(page: Seq<u8>, k: int) -> (i64, i64) {
    (be_value(page, 16 * k), be_value(page, 16 * k + 8))
}

/// The records of one page of 4,096 bytes, in file order.
pub open spec fn decode_page(page: Seq<u8>) -> Seq<(i64, i64)> {
    Seq::new(data_blocks(page, 256), |k: int| record_at(page, k))
}

/// The sixteen padding bytes read as a record: the one record that a page
/// cannot hold in its last occupied block.
pub open spec fn padding_record() -> (i64, i64) {
    (0xdeadbeefdeadbeefu64 as i64, 0xdeadbeefdeadbeefu64 as i64)
}

/// The key and the value of the padding record are both the number that
/// the eight padding bytes stand for, which is negative.
pub proof fn lemma_padding_record()
    ensures
        padding_record() == (-2401053088876216593i64, -2401053088876216593i64),
{
    assert(0xdeadbeefdeadbeefu64 as i64 == -2401053088876216593i64) by (bit_vector);
}

/// The padding byte at a place is given by the place's remainder modulo 4.
proof fn lemma_pad_byte(group: int, j: int)
    requires
        0 <= group,
        0 <= j < 4,
    ensures
        pad_byte(4 * group + j) == pad_byte(j),
{
    assert((4 * group + j) % 4 == j) by (nonlinear_arith)
        requires
            0 <= group,
            0 <= j < 4,
    ;
}

/// Pads `bytes`, whose length is a multiple of 16, to the next multiple of
/// the page size.
pub fn pad_page_bytes(bytes: &mut Vec<u8>)
    requires
        old(bytes).len() % 16 == 0,
        old(bytes).len() + 4096 <= usize::MAX,
    ensures
        final(bytes)@ == padded(old(bytes)@),
{
    let ghost start = bytes@;
    let first: usize = bytes.len();
    let rest: usize = first % PAGE_SIZE;
    let groups: usize = if rest != 0 {
        (PAGE_SIZE - rest) / 4
    } else {
        0
    };
    let ghost quarter: int = first as int / 4;
    assert(first == 4 * quarter) by {
        assert(first % 16 == 0);
    }
    assert(first + 4 * groups == page_ceil(first as nat)) by {
        assert(rest % 16 == 0);
    }
    let mut done: usize = 0;
    while done < groups
        invariant
            done <= groups,
            first == start.len(),
            first == 4 * quarter,
            0 <= quarter,
            first + 4 * groups <= usize::MAX,
            bytes@.len() == first + 4 * done,
            forall|i: int| 0 <= i < first ==> bytes@[i] == start[i],
            forall|i: int| first <= i < bytes@.len() ==> bytes@[i] == pad_byte(i),
        decreases groups - done,
    {
        proof {
            lemma_pad_byte(quarter + done, 0);
            lemma_pad_byte(quarter + done, 1);
            lemma_pad_byte(quarter + done, 2);
            lemma_pad_byte(quarter + done, 3);
        }
        bytes.push(0xde);
        bytes.push(0xad);
        bytes.push(0xbe);
        bytes.push(0xef);
        done += 1;
    }
    assert(bytes@ =~= padded(start));
}

/// The eight bytes of `x`, most significant first.
pub open spec fn be_bytes(x: i64) -> Seq<u8> {
    Seq::new(8, |j: int| be_byte(x, j))
}

/// The eight bytes of `x`, most significant first.
pub fn key_bytes(x: i64) -> (bytes: Vec<u8>)
    ensures
        bytes@ == be_bytes(x),
{
    let mut bytes: Vec<u8> = Vec::with_capacity(8);
    push_be(&mut bytes, x);
    assert(bytes@ =~= be_bytes(x));
    bytes
}

/// Appends the eight bytes of `x`, most significant first.
pub fn push_be(bytes: &mut Vec<u8>, x: i64)
    ensures
        final(bytes)@.len() == old(bytes)@.len() + 8,
        forall|i: int| 0 <= i < old(bytes)@.len() ==> final(bytes)@[i] == old(bytes)@[i],
        forall|j: int| 0 <= j < 8 ==> final(bytes)@[old(bytes)@.len() + j] == be_byte(x, j),
{
    let u: u64 = #[verifier::truncate] (x as u64);
    let mut j: u64 = 0;
    while j < 8
        invariant
            j <= 8,
            u == x as u64,
            bytes@.len() == old(bytes)@.len() + j,
            forall|i: int| 0 <= i < old(bytes)@.len() ==> bytes@[i] == old(bytes)@[i],
            forall|k: int| 0 <= k < j ==> bytes@[old(bytes)@.len() + k] == be_byte(x, k),
        decreases 8 - j,
    {
        let shift: u64 = 8 * (7 - j);
        let b: u64 = (u >> shift) & 0xff;
        assert(b <= 0xff) by (bit_vector)
            requires
                b == (u >> shift) & 0xff,
        ;
        bytes.push(b as u8);
        j += 1;
    }
}

/// The records laid end to end, sixteen bytes each.
pub fn encode_records(kv_arr: &Vec<(i64, i64)>) -> (bytes: Vec<u8>)
    requires
        16 * kv_arr.len() <= usize::MAX,
    ensures
        bytes@ == records_bytes(kv_arr@),
{
    let mut bytes: Vec<u8> = Vec::new();
    let mut i: usize = 0;
    while i < kv_arr.len()
        invariant
            i <= kv_arr.len(),
            bytes@.len() == 16 * i,
            forall|b: int|
                0 <= b < 16 * i ==> bytes@[b] == record_byte(#[trigger] kv_arr@[b / 16], b % 16),
        decreases kv_arr.len() - i,
    {
        let (key, value) = kv_arr[i];
        push_be(&mut bytes, key);
        push_be(&mut bytes, value);
        i += 1;
    }
    assert(bytes@ =~= records_bytes(kv_arr@));
    bytes
}

/// Reads the integer stored big-endian at `bytes[at..at + 8]`.
pub fn read_be(bytes: &[u8], at: usize) -> (x: i64)
    requires
        at + 8 <= bytes@.len(),
    ensures
        x == be_value(bytes@, at as int),
{
    let u: u64 = ((bytes[at] as u64) << 56) | ((bytes[at + 1] as u64) << 48) | ((bytes[at
        + 2] as u64) << 40) | ((bytes[at + 3] as u64) << 32) | ((bytes[at + 4] as u64) << 24) | ((
    bytes[at + 5] as u64) << 16) | ((bytes[at + 6] as u64) << 8) | (bytes[at + 7] as u64);
    #[verifier::truncate]
    (u as i64)
}

/// Whether block `k` of `bytes` holds exactly the padding pattern.
fn block_is_padding(bytes: &[u8], k: usize) -> (yes: bool)
    requires
        16 * k + 16 <= bytes@.len(),
    ensures
        yes == is_padding_block(bytes@, k as int),
{
    let len: usize = bytes.len();
    let mut j: usize = 0;
    while j < 16
        invariant
            j <= 16,
            16 * k + 16 <= len == bytes@.len(),
            forall|i: int| 0 <= i < j ==> #[trigger] bytes@[16 * k + i] == pad_byte(i),
        decreases 16 - j,
    {
        let want: u8 = if j % 4 == 0 {
            0xde
        } else if j % 4 == 1 {
            0xad
        } else if j % 4 == 2 {
            0xbe
        } else {
            0xef
        };
        if bytes[16 * k + j] != want {
            assert(bytes@[16 * k + j] != pad_byte(j as int));
            return false;
        }
        j += 1;
    }
    true
}

/// The records of one page: trailing padding blocks are dropped and the rest
/// is read as records, in file order.
pub fn decode_page_bytes(bytes: &[u8]) -> (records: Vec<(i64, i64)>)
    requires
        bytes@.len() == 4096,
    ensures
        records@ == decode_page(bytes@),
{
    let mut n: usize = ENTRIES;
    while n > 0 && block_is_padding(bytes, n - 1)
        invariant
            n <= 256,
            bytes@.len() == 4096,
            data_blocks(bytes@, 256) == data_blocks(bytes@, n as nat),
        decreases n,
    {
        n -= 1;
    }
    let mut records: Vec<(i64, i64)> = Vec::new();
    let mut k: usize = 0;
    while k < n
        invariant
            k <= n <= 256,
            bytes@.len() == 4096,
            records@.len() == k,
            forall|i: int| 0 <= i < k ==> records@[i] == record_at(bytes@, i),
        decreases n - k,
    {
        let key: i64 = read_be(bytes, 16 * k);
        let value: i64 = read_be(bytes, 16 * k + 8);
        records.push((key, value));
        k += 1;
    }
    assert(records@ =~= decode_page(bytes@));
    records
}


/// The number of pages that `n` records fill.
pub open spec fn page_count(n: nat) -> nat {
    (n + 255) / 256
}

/// The records that page `p` of a run holds: at most 256, in order.
pub open spec fn chunk(rs: Seq<(i64, i64)>, p: int) -> Seq<(i64, i64)> {
    rs.subrange(
        256 * p,
        if 256 * (p + 1) <= rs.len() {
            256 * (p + 1)
        } else {
            rs.len() as int
        },
    )
}

/// Page `p` of a file image.
pub open spec fn page_of(file: Seq<u8>, p: int) -> Seq<u8> {
    file.subrange(4096 * p, 4096 * p + 4096)
}

/// Reading back the eight bytes written for `x` gives `x`.
pub proof fn lemma_be_value_of_bytes(b: Seq<u8>, at: int, x: i64)
    requires
        forall|j: int| 0 <= j < 8 ==> b[at + j] == be_byte(x, j),
    ensures
        be_value(b, at) == x,
{
    let u = x as u64;
    let b0 = b[at];
    let b1 = b[at + 1];
    let b2 = b[at + 2];
    let b3 = b[at + 3];
    let b4 = b[at + 4];
    let b5 = b[at + 5];
    let b6 = b[at + 6];
    let b7 = b[at + 7];
    assert(b0 == be_byte(x, 0) && b1 == be_byte(x, 1) && b2 == be_byte(x, 2) && b3 == be_byte(
        x,
        3,
    ) && b4 == be_byte(x, 4) && b5 == be_byte(x, 5) && b6 == be_byte(x, 6) && b7 == be_byte(x, 7))
        by {
        assert(b[at + 0] == be_byte(x, 0));
    }
    assert((((b0 as u64) << 56) | ((b1 as u64) << 48) | ((b2 as u64) << 40) | ((b3 as u64) << 32)
        | ((b4 as u64) << 24) | ((b5 as u64) << 16) | ((b6 as u64) << 8) | (b7 as u64)) == u)
        by (bit_vector)
        requires
            b0 == ((u >> 56) & 0xff) as u8,
            b1 == ((u >> 48) & 0xff) as u8,
            b2 == ((u >> 40) & 0xff) as u8,
            b3 == ((u >> 32) & 0xff) as u8,
            b4 == ((u >> 24) & 0xff) as u8,
            b5 == ((u >> 16) & 0xff) as u8,
            b6 == ((u >> 8) & 0xff) as u8,
            b7 == ((u >> 0) & 0xff) as u8,
    ;
    assert(u as i64 == x) by (bit_vector)
        requires
            u == x as u64,
    ;
}

/// A block that holds the padding pattern reads as the padding record.
pub proof fn lemma_padding_block_record(page: Seq<u8>, k: int)
    requires
        is_padding_block(page, k),
    ensures
        record_at(page, k) == padding_record(),
{
    assert(forall|j: int| 0 <= j < 16 ==> #[trigger] page[16 * k + j] == pad_byte(j));
    assert(page[16 * k + 0] == 0xde && page[16 * k + 1] == 0xad && page[16 * k + 2] == 0xbe
        && page[16 * k + 3] == 0xef);
    assert(page[16 * k + 4] == 0xde && page[16 * k + 5] == 0xad && page[16 * k + 6] == 0xbe
        && page[16 * k + 7] == 0xef);
    assert(page[16 * k + 8] == 0xde && page[16 * k + 9] == 0xad && page[16 * k + 10] == 0xbe
        && page[16 * k + 11] == 0xef);
    assert(page[16 * k + 12] == 0xde && page[16 * k + 13] == 0xad && page[16 * k + 14] == 0xbe
        && page[16 * k + 15] == 0xef);
    assert((((0xdeu8 as u64) << 56) | ((0xadu8 as u64) << 48) | ((0xbeu8 as u64) << 40) | ((
    0xefu8 as u64) << 32) | ((0xdeu8 as u64) << 24) | ((0xadu8 as u64) << 16) | ((0xbeu8 as u64)
        << 8) | (0xefu8 as u64)) == 0xdeadbeefdeadbeefu64) by (bit_vector);
    assert(page[16 * k + 8 + 1] == page[16 * k + 9]);
}

/// Dropping trailing padding blocks from `hi` blocks leaves what dropping
/// them from `lo` leaves, when every block from `lo` up to `hi` is padding.
proof fn lemma_data_blocks_skip(page: Seq<u8>, lo: nat, hi: nat)
    requires
        lo <= hi,
        forall|k: int| lo <= k < hi ==> is_padding_block(page, k),
    ensures
        data_blocks(page, hi) == data_blocks(page, lo),
    decreases hi - lo,
{
    if lo < hi {
        lemma_data_blocks_skip(page, lo, (hi - 1) as nat);
    }
}

/// The length of a file image: whole pages, as many as the records fill.
pub proof fn lemma_pages_image_len(rs: Seq<(i64, i64)>)
    ensures
        pages_image(rs).len() == 4096 * page_count(rs.len()),
{
}

/// What is written is what is read: page `p` of the image of `rs` decodes to
/// the records of that page, unless the last of them is the padding record.
pub proof fn lemma_page_round_trip(rs: Seq<(i64, i64)>, p: int)
    requires
        0 <= p < page_count(rs.len()),
        chunk(rs, p).last() != padding_record(),
    ensures
        4096 * p + 4096 <= pages_image(rs).len(),
        decode_page(page_of(pages_image(rs), p)) == chunk(rs, p),
{
    let img = pages_image(rs);
    let page = page_of(img, p);
    let want = chunk(rs, p);
    let m = want.len();
    lemma_pages_image_len(rs);
    assert(1 <= m <= 256);
    assert forall|k: int| 0 <= k < m implies #[trigger] record_at(page, k) == want[k] by {
        let r = rs[256 * p + k];
        assert forall|j: int| 0 <= j < 16 implies #[trigger] page[16 * k + j] == record_byte(
            r,
            j,
        ) by {
            let i = 4096 * p + 16 * k + j;
            assert(page[16 * k + j] == img[i]);
            assert(i / 16 == 256 * p + k && i % 16 == j);
        }
        assert forall|j: int| 0 <= j < 8 implies page[16 * k + j] == be_byte(r.0, j) by {
            assert(page[16 * k + j] == record_byte(r, j));
        }
        assert forall|j: int| 0 <= j < 8 implies page[16 * k + 8 + j] == be_byte(r.1, j) by {
            assert(page[16 * k + (8 + j)] == record_byte(r, 8 + j));
        }
        lemma_be_value_of_bytes(page, 16 * k, r.0);
        lemma_be_value_of_bytes(page, 16 * k + 8, r.1);
    }
    assert forall|k: int| m <= k < 256 implies is_padding_block(page, k) by {
        assert forall|j: int| 0 <= j < 16 implies #[trigger] page[16 * k + j] == pad_byte(j) by {
            let i = 4096 * p + 16 * k + j;
            assert(page[16 * k + j] == img[i]);
            assert(i % 4 == j % 4);
        }
    }
    lemma_data_blocks_skip(page, m, 256);
    if is_padding_block(page, m - 1) {
        lemma_padding_block_record(page, m - 1);
        assert(record_at(page, m - 1) == want[m - 1]);
    }
    assert(data_blocks(page, m) == m);
    assert(decode_page(page) =~= want);
}


/// The records of `records` page by page, 256 to a page.
pub open spec fn chunks(records: Seq<(i64, i64)>) -> Seq<Seq<(i64, i64)>> {
    Seq::new(page_count(records.len()), |p: int| chunk(records, p))
}

/// No page of a run of `records` ends with the padding record: the run can
/// be read back as it was written.
pub open spec fn storable(records: Seq<(i64, i64)>) -> bool {
    forall|p: int|
        0 <= p < page_count(records.len()) ==> (#[trigger] chunk(records, p)).last()
            != padding_record()
}

/// The pages of the image of a run that can be read back are the pages of
/// the run.
pub proof fn lemma_image_pages(records: Seq<(i64, i64)>)
    requires
        storable(records),
    ensures
        pages_image(records).len() == 4096 * page_count(records.len()),
        forall|p: int|
            0 <= p < page_count(records.len()) ==> decode_page(
                #[trigger] page_of(pages_image(records), p),
            ) == chunk(records, p),
{
    lemma_pages_image_len(records);
    assert forall|p: int| 0 <= p < page_count(records.len()) implies decode_page(
        #[trigger] page_of(pages_image(records), p),
    ) == chunk(records, p) by {
        assert(chunk(records, p).last() != padding_record());
        lemma_page_round_trip(records, p);
    }
}

/// What page `p` of a file is when the file is two files in a row: a page of
/// the first, which is a whole number of pages long, or a page of the
/// second.
pub proof fn lemma_page_of_joined(first: Seq<u8>, second: Seq<u8>, p: int)
    requires
        first.len() % 4096 == 0,
        0 <= p,
        4096 * p + 4096 <= first.len() + second.len(),
    ensures
        4096 * p < first.len() ==> 4096 * p + 4096 <= first.len() && page_of(first + second, p)
            == page_of(first, p),
        4096 * p >= first.len() ==> page_of(first + second, p) == page_of(
            second,
            p - first.len() / 4096,
        ),
{
    let all = first + second;
    if 4096 * p < first.len() {
        assert(page_of(all, p) =~= page_of(first, p));
    } else {
        let q = p - first.len() / 4096;
        assert(4096 * q == 4096 * p - first.len());
        assert(page_of(all, p) =~= page_of(second, q));
    }
}

} // verus!
