//! The Bloom filter: a bitmap in which each key sets ten bits, found by ten
//! seeded hashes of the key.

use crate::disk::Disk;
use crate::page::{
    be_byte, be_bytes, be_value, key_bytes, lemma_be_value_of_bytes, page_ceil, push_be, read_be,
};
use crate::sst::appended;
use vstd::prelude::*;

verus! {

/// The number of hashes that place a key.
pub const HASHES: usize = 10;

/// Seed number `i` of the ten fixed seeds.
pub open spec fn seed_at(i: int) -> u64 {
    if i == 0 {
        11798049322123270191
    } else if i == 1 {
        15539830439605854879
    } else if i == 2 {
        6578765718544580074
    } else if i == 3 {
        71743494464343003
    } else if i == 4 {
        9094065546985931996
    } else if i == 5 {
        17578418613310108530
    } else if i == 6 {
        3998834685102698833
    } else if i == 7 {
        17224146472807812495
    } else if i == 8 {
        13715473566396950222
    } else {
        7265912439666505101
    }
}

/// Seed number `i` of the ten fixed seeds.
fn seed(i: usize) -> (s: u64)
    requires
        i < 10,
    ensures
        s == seed_at(i as int),
{
    if i == 0 {
        11798049322123270191
    } else if i == 1 {
        15539830439605854879
    } else if i == 2 {
        6578765718544580074
    } else if i == 3 {
        71743494464343003
    } else if i == 4 {
        9094065546985931996
    } else if i == 5 {
        17578418613310108530
    } else if i == 6 {
        3998834685102698833
    } else if i == 7 {
        17224146472807812495
    } else if i == 8 {
        13715473566396950222
    } else {
        7265912439666505101
    }
}

/// The XXH64 hash of `bytes` with the seed `seed`.
pub uninterp spec fn xxh64(seed: u64, bytes: Seq<u8>) -> u64;

/// Calls `twox_hash::XxHash64`: a hasher made with `with_seed`, fed the
/// bytes once and finished. The result is the XXH64 hash of the bytes under
/// the seed: a function of the seed and the bytes alone.
#[verifier::external_body]
fn seeded_hash(seed: u64, bytes: &[u8]) -> (hash: u64)
    ensures
        hash == xxh64(seed, bytes@),
{
    let mut hasher = twox_hash::XxHash64::with_seed(seed);
    std::hash::Hasher::write(&mut hasher, bytes);
    std::hash::Hasher::finish(&hasher)
}

/// The bit that hash number `i` gives the key `key` in a bitmap of `size`
/// bits.
pub open spec fn bit_position(i: int, key: i64, size: u64) -> u64 {
    xxh64(seed_at(i), be_bytes(key)) % size
}

/// The bits that the key `key` sets in a bitmap of `size` bits.
pub open spec fn key_bits(key: i64, size: u64) -> Set<u64> {
    Set::new(|bit: u64| exists|i: int| 0 <= i < 10 && #[trigger] bit_position(i, key, size) == bit)
}

/// The bits that the keys of `records` set in a bitmap of `size` bits.
pub open spec fn filter_bits(records: Seq<(i64, i64)>, size: u64) -> Set<u64>
    decreases records.len(),
{
    if records.len() == 0 {
        Set::empty()
    } else {
        filter_bits(records.drop_last(), size).union(key_bits(records.last().0, size))
    }
}

/// A bitmap: `size` bits in bytes, the lowest bit of each byte first.
pub struct Bitmap {
    bits: Vec<u8>,
    size: u64,
}

/// Whether bit `k` of the byte `b` is set.
pub open spec fn byte_bit(b: u8, k: u64) -> bool {
    (b >> k) & 1 == 1
}

/// Setting bit `k` of a byte sets that bit and changes no other.
proof fn lemma_set_bit(b: u8, k: u64, j: u64)
    requires
        k < 8,
        j < 8,
    ensures
        byte_bit(b | (1u8 << k), j) == (j == k || byte_bit(b, j)),
{
    assert(((b | (1u8 << k)) >> j) & 1 == 1 <==> (j == k || (b >> j) & 1 == 1)) by (bit_vector)
        requires
            k < 8,
            j < 8,
    ;
}

/// No bit of the byte 0 is set.
proof fn lemma_zero_byte(j: u64)
    requires
        j < 8,
    ensures
        !byte_bit(0, j),
{
    assert((0u8 >> j) & 1 == 0) by (bit_vector);
}

impl View for Bitmap {
    type V = Set<u64>;

    /// The bits that are set.
    closed spec fn view(&self) -> Set<u64> {
        Set::new(
            |bit: u64|
                bit / 8 < self.bits@.len() && byte_bit(self.bits@[(bit / 8) as int], bit % 8),
        )
    }
}

impl Bitmap {
    /// The number of bits, as the filter counts them.
    pub closed spec fn spec_size(&self) -> u64 {
        self.size
    }

    /// The number of bits that the bytes hold.
    pub closed spec fn room(&self) -> nat {
        8 * self.bits@.len()
    }

    /// The bytes hold the bits that the filter counts, and no byte more.
    pub closed spec fn wf(&self) -> bool {
        self.bits@.len() == (self.size + 7) / 8
    }

    /// A bitmap of `size` bits, none of them set.
    pub fn new(size: u64) -> (bitmap: Self)
        requires
            size + 7 <= u64::MAX,
            (size + 7) / 8 <= usize::MAX,
        ensures
            bitmap.wf(),
            bitmap.spec_size() == size,
            bitmap@ == Set::<u64>::empty(),
    {
        let vec_size: u64 = (size + 7) / 8;
        let bitmap = Bitmap { bits: vec![0u8; vec_size as usize], size };
        proof {
            assert forall|bit: u64| !bitmap@.contains(bit) by {
                if bit / 8 < bitmap.bits@.len() {
                    lemma_zero_byte(bit % 8);
                }
            }
            assert(bitmap@ =~= Set::<u64>::empty());
        }
        bitmap
    }

    /// Sets bit `idx`.
    pub fn set(&mut self, idx: u64)
        requires
            idx < old(self).room(),
        ensures
            final(self)@ == old(self)@.insert(idx),
            final(self).spec_size() == old(self).spec_size(),
            final(self).room() == old(self).room(),
            old(self).wf() ==> final(self).wf(),
    {
        let held: usize = self.bits.len();
        let byte_idx: usize = (idx / 8) as usize;
        let bit_idx: u64 = idx % 8;
        let byte: u8 = self.bits[byte_idx];
        self.bits[byte_idx] = byte | (1u8 << bit_idx);
        proof {
            assert forall|bit: u64| self@.contains(bit) == old(self)@.insert(idx).contains(bit) by {
                if bit / 8 < self.bits@.len() {
                    if bit / 8 == idx / 8 {
                        lemma_set_bit(byte, bit_idx, bit % 8);
                    }
                }
            }
            assert(self@ =~= old(self)@.insert(idx));
        }
    }

    /// Whether bit `idx` is set.
    pub fn is_set(&self, idx: u64) -> (set: bool)
        requires
            idx < self.room(),
        ensures
            set == self@.contains(idx),
    {
        let held: usize = self.bits.len();
        let byte_idx: usize = (idx / 8) as usize;
        let bit_idx: u64 = idx % 8;
        (self.bits[byte_idx] >> bit_idx) & 1 == 1
    }

    /// Makes the bitmap hold `new_size` bytes: bytes at the end are dropped,
    /// or bytes without a set bit are added.
    pub fn reset(&mut self, new_size: u64)
        requires
            new_size <= usize::MAX,
        ensures
            final(self).room() == 8 * new_size,
            final(self).spec_size() == old(self).spec_size(),
            final(self)@ == old(self)@.filter(|bit: u64| bit / 8 < new_size),
    {
        self.bits.resize(new_size as usize, 0);
        proof {
            assert forall|bit: u64|
                self@.contains(bit) == old(self)@.filter(|bit: u64| bit / 8 < new_size).contains(
                    bit,
                ) by {
                if bit / 8 < new_size {
                    if bit / 8 < old(self).bits@.len() {
                        if new_size > old(self).bits@.len() {
                            assert(self.bits@.subrange(0, old(self).bits@.len() as int)[(bit
                                / 8) as int] == self.bits@[(bit / 8) as int]);
                        }
                    } else {
                        lemma_zero_byte(bit % 8);
                    }
                }
            }
            assert(self@ =~= old(self)@.filter(|bit: u64| bit / 8 < new_size));
        }
    }

    /// The number of bits.
    pub fn size(&self) -> (size: u64)
        ensures
            size == self.spec_size(),
    {
        self.size
    }
}

/// A set of keys that answers whether it may hold a key.
pub trait BloomFilter {
    /// The bits that the key sets and asks for.
    spec fn bits_of(&self, key: i64) -> Set<u64>;

    /// The bits that are set.
    spec fn bits_set(&self) -> Set<u64>;

    /// The filter can take and check keys.
    spec fn usable(&self) -> bool;

    /// Adds `key` to the set: its bits are set.
    fn insert_key(&mut self, key: i64)
        requires
            old(self).usable(),
        ensures
            final(self).usable(),
            final(self).bits_set() == old(self).bits_set().union(old(self).bits_of(key)),
            forall|k: i64| final(self).bits_of(k) == old(self).bits_of(k),
    ;

    /// Whether the set may hold `key`: whether all its bits are set.
    fn check_key(&self, key: i64) -> (maybe: bool)
        requires
            self.usable(),
        ensures
            maybe == self.bits_of(key).subset_of(self.bits_set()),
    ;
}

impl BloomFilter for Bitmap {
    open spec fn bits_of(&self, key: i64) -> Set<u64> {
        key_bits(key, self.spec_size())
    }

    open spec fn bits_set(&self) -> Set<u64> {
        self@
    }

    open spec fn usable(&self) -> bool {
        self.wf() && self.spec_size() > 0
    }

    fn insert_key(&mut self, key: i64)
        ensures
            final(self).spec_size() == old(self).spec_size(),
    {
        let bytes: Vec<u8> = key_bytes(key);
        let mut i: usize = 0;
        let ghost size = self.size;
        while i < HASHES
            invariant
                i <= 10,
                self.wf(),
                self.size == size,
                size > 0,
                bytes@ == be_bytes(key),
                forall|bit: u64|
                    self@.contains(bit) == (old(self)@.contains(bit) || exists|k: int|
                        0 <= k < i && #[trigger] bit_position(k, key, size) == bit),
            decreases 10 - i,
        {
            let bit_idx: u64 = seeded_hash(seed(i), bytes.as_slice()) % self.size;
            assert(bit_idx == bit_position(i as int, key, size));
            let ghost before = self@;
            self.set(bit_idx);
            proof {
                assert forall|bit: u64|
                    self@.contains(bit) == (old(self)@.contains(bit) || exists|k: int|
                        0 <= k < i + 1 && #[trigger] bit_position(k, key, size) == bit) by {
                    if before.contains(bit) && !old(self)@.contains(bit) {
                        let k = choose|k: int|
                            0 <= k < i && #[trigger] bit_position(k, key, size) == bit;
                        assert(0 <= k < i + 1 && bit_position(k, key, size) == bit);
                    }
                    if exists|k: int|
                        0 <= k < i + 1 && #[trigger] bit_position(k, key, size) == bit {
                        let k = choose|k: int|
                            0 <= k < i + 1 && #[trigger] bit_position(k, key, size) == bit;
                        if k < i {
                            assert(0 <= k < i && bit_position(k, key, size) == bit);
                        }
                    }
                }
            }
            i += 1;
        }
        assert(self@ =~= old(self)@.union(key_bits(key, size)));
    }

    fn check_key(&self, key: i64) -> (maybe: bool) {
        let bytes: Vec<u8> = key_bytes(key);
        let mut i: usize = 0;
        while i < HASHES
            invariant
                i <= 10,
                self.wf(),
                self.size > 0,
                bytes@ == be_bytes(key),
                forall|k: int| 0 <= k < i ==> self@.contains(#[trigger] bit_position(k, key, self.size)),
            decreases 10 - i,
        {
            let bit_idx: u64 = seeded_hash(seed(i), bytes.as_slice()) % self.size;
            assert(bit_idx == bit_position(i as int, key, self.size));
            if !self.is_set(bit_idx) {
                proof {
                    assert(key_bits(key, self.size).contains(bit_idx));
                }
                return false;
            }
            i += 1;
        }
        proof {
            assert forall|bit: u64| key_bits(key, self.size).contains(bit) implies self@.contains(
                bit,
            ) by {
                let k = choose|k: int| 0 <= k < 10 && #[trigger] bit_position(k, key, self.size) == bit;
                assert(self@.contains(bit_position(k, key, self.size)));
            }
        }
        true
    }
}

/// A filter of `bits_per_entry` bits for each record of `leaf_lst`, with
/// the keys of all these records added.
pub fn construct_filter(leaf_lst: &Vec<(i64, i64)>, bits_per_entry: &u8) -> (bitmap: Bitmap)
    requires
        *bits_per_entry * leaf_lst@.len() + 7 <= usize::MAX,
        *bits_per_entry > 0 || leaf_lst@.len() == 0,
    ensures
        bitmap.wf(),
        bitmap.spec_size() == *bits_per_entry * leaf_lst@.len(),
        bitmap@ == filter_bits(leaf_lst@, bitmap.spec_size()),
{
    let bitmap_size: u64 = (*bits_per_entry as usize * leaf_lst.len()) as u64;
    assert(leaf_lst@.len() > 0 ==> bitmap_size > 0) by (nonlinear_arith)
        requires
            bitmap_size == *bits_per_entry * leaf_lst@.len(),
            *bits_per_entry > 0 || leaf_lst@.len() == 0,
    ;
    let mut bitmap = Bitmap::new(bitmap_size);
    let mut i: usize = 0;
    assert(leaf_lst@.subrange(0, 0) =~= Seq::<(i64, i64)>::empty());
    while i < leaf_lst.len()
        invariant
            i <= leaf_lst@.len(),
            bitmap.wf(),
            bitmap.spec_size() == bitmap_size,
            leaf_lst@.len() > 0 ==> bitmap_size > 0,
            bitmap@ == filter_bits(leaf_lst@.subrange(0, i as int), bitmap_size),
        decreases leaf_lst@.len() - i,
    {
        bitmap.insert_key(leaf_lst[i].0);
        proof {
            let more = leaf_lst@.subrange(0, i + 1);
            assert(more.drop_last() =~= leaf_lst@.subrange(0, i as int));
            assert(more.last() == leaf_lst@[i as int]);
        }
        i += 1;
    }
    assert(leaf_lst@.subrange(0, leaf_lst@.len() as int) =~= leaf_lst@);
    bitmap
}

/// The bits that are set in the bytes of a bitmap, the lowest bit of each
/// byte first.
pub open spec fn unpacked(bytes: Seq<u8>) -> Set<u64> {
    Set::new(|bit: u64| bit / 8 < bytes.len() && byte_bit(bytes[(bit / 8) as int], bit % 8))
}

/// Bit `k` alone where bit `8 * i + k` is in `bits`, else no bit.
pub open spec fn flag(bits: Set<u64>, i: int, k: u64) -> u8 {
    if bits.contains((8 * i + k) as u64) {
        1u8 << k
    } else {
        0
    }
}

/// Byte `i` of the bitmap in which the bits of `bits` are set.
pub open spec fn packed_byte(bits: Set<u64>, i: int) -> u8 {
    flag(bits, i, 0) | flag(bits, i, 1) | flag(bits, i, 2) | flag(bits, i, 3) | flag(bits, i, 4)
        | flag(bits, i, 5) | flag(bits, i, 6) | flag(bits, i, 7)
}

/// The number of bytes of a bitmap of `size` bits.
pub open spec fn bytes_for(size: u64) -> int {
    (size + 7) / 8
}

/// The page at which a search tree starts that follows a filter of `size`
/// bits in its file.
pub open spec fn tree_start(size: u64) -> int {
    (16 + bytes_for(size) + 4095) / 4096
}

/// The number stored in the eight bytes `b[at..at + 8]`, most significant
/// byte first.
pub open spec fn word_at(b: Seq<u8>, at: int) -> u64 {
    be_value(b, at) as u64
}

/// The bytes of a filter of `size` bits with the bits of `bits` set, as a
/// file holds them: the number of bits, the page at which the search tree
/// starts, both in eight bytes with the most significant first, the bytes
/// of the bitmap, and zeros up to the end of the page.
pub open spec fn filter_image(bits: Set<u64>, size: u64) -> Seq<u8> {
    Seq::new(
        page_ceil((16 + bytes_for(size)) as nat),
        |i: int|
            if i < 8 {
                be_byte(size as i64, i)
            } else if i < 16 {
                be_byte(tree_start(size) as i64, i - 8)
            } else if i < 16 + bytes_for(size) {
                packed_byte(bits, i - 16)
            } else {
                0u8
            },
    )
}

/// The bytes hold a filter: the sixteen bytes of the two numbers, and the
/// bytes of a bitmap of as many bits as the first number says.
pub open spec fn holds_filter(file: Seq<u8>) -> bool {
    &&& file.len() >= 16
    &&& word_at(file, 0) + 7 <= u64::MAX
    &&& 16 + bytes_for(word_at(file, 0)) <= file.len()
}

/// The bytes of the bitmap of the filter that the bytes of `file` hold.
pub open spec fn stored_bits(file: Seq<u8>) -> Seq<u8> {
    file.subrange(16, 16 + bytes_for(word_at(file, 0)))
}

/// A byte is made of its eight bits.
proof fn lemma_byte_of_bits(b: u8, c: Seq<bool>)
    requires
        c.len() == 8,
        forall|k: u64| k < 8 ==> c[k as int] == byte_bit(b, k),
    ensures
        b == (if c[0] { 1u8 << 0u64 } else { 0 }) | (if c[1] { 1u8 << 1u64 } else { 0 }) | (if c[2] {
            1u8 << 2u64
        } else {
            0
        }) | (if c[3] { 1u8 << 3u64 } else { 0 }) | (if c[4] { 1u8 << 4u64 } else { 0 }) | (if c[5] {
            1u8 << 5u64
        } else {
            0
        }) | (if c[6] { 1u8 << 6u64 } else { 0 }) | (if c[7] { 1u8 << 7u64 } else { 0 }),
{
    let c0 = c[0];
    let c1 = c[1];
    let c2 = c[2];
    let c3 = c[3];
    let c4 = c[4];
    let c5 = c[5];
    let c6 = c[6];
    let c7 = c[7];
    assert(c0 == byte_bit(b, 0) && c1 == byte_bit(b, 1) && c2 == byte_bit(b, 2) && c3 == byte_bit(
        b,
        3,
    ) && c4 == byte_bit(b, 4) && c5 == byte_bit(b, 5) && c6 == byte_bit(b, 6) && c7 == byte_bit(
        b,
        7,
    ));
    assert(b == (if c0 { 1u8 << 0u64 } else { 0 }) | (if c1 { 1u8 << 1u64 } else { 0 }) | (if c2 {
        1u8 << 2u64
    } else {
        0
    }) | (if c3 { 1u8 << 3u64 } else { 0 }) | (if c4 { 1u8 << 4u64 } else { 0 }) | (if c5 {
        1u8 << 5u64
    } else {
        0
    }) | (if c6 { 1u8 << 6u64 } else { 0 }) | (if c7 { 1u8 << 7u64 } else { 0 })) by (bit_vector)
        requires
            c0 == ((b >> 0u64) & 1 == 1),
            c1 == ((b >> 1u64) & 1 == 1),
            c2 == ((b >> 2u64) & 1 == 1),
            c3 == ((b >> 3u64) & 1 == 1),
            c4 == ((b >> 4u64) & 1 == 1),
            c5 == ((b >> 5u64) & 1 == 1),
            c6 == ((b >> 6u64) & 1 == 1),
            c7 == ((b >> 7u64) & 1 == 1),
    ;
}

/// The bits of a byte are the bits of which it is made.
proof fn lemma_bits_of_byte(c: Seq<bool>, k: u64)
    requires
        c.len() == 8,
        k < 8,
    ensures
        byte_bit(
            (if c[0] { 1u8 << 0u64 } else { 0 }) | (if c[1] { 1u8 << 1u64 } else { 0 }) | (if c[2] {
                1u8 << 2u64
            } else {
                0
            }) | (if c[3] { 1u8 << 3u64 } else { 0 }) | (if c[4] { 1u8 << 4u64 } else { 0 }) | (if c[5] {
                1u8 << 5u64
            } else {
                0
            }) | (if c[6] { 1u8 << 6u64 } else { 0 }) | (if c[7] { 1u8 << 7u64 } else { 0 }),
            k,
        ) == c[k as int],
{
    let c0 = c[0];
    let c1 = c[1];
    let c2 = c[2];
    let c3 = c[3];
    let c4 = c[4];
    let c5 = c[5];
    let c6 = c[6];
    let c7 = c[7];
    let ck = c[k as int];
    assert(((((if c0 { 1u8 << 0u64 } else { 0 }) | (if c1 { 1u8 << 1u64 } else { 0 }) | (if c2 {
        1u8 << 2u64
    } else {
        0
    }) | (if c3 { 1u8 << 3u64 } else { 0 }) | (if c4 { 1u8 << 4u64 } else { 0 }) | (if c5 {
        1u8 << 5u64
    } else {
        0
    }) | (if c6 { 1u8 << 6u64 } else { 0 }) | (if c7 { 1u8 << 7u64 } else { 0 })) >> k) & 1 == 1)
        == ck) by (bit_vector)
        requires
            k < 8,
            ck == if k == 0 {
                c0
            } else if k == 1 {
                c1
            } else if k == 2 {
                c2
            } else if k == 3 {
                c3
            } else if k == 4 {
                c4
            } else if k == 5 {
                c5
            } else if k == 6 {
                c6
            } else {
                c7
            },
    ;
}

/// The flags of the eight bits of byte `i`.
pub open spec fn flags(bits: Set<u64>, i: int) -> Seq<bool> {
    Seq::new(8, |k: int| bits.contains((8 * i + k) as u64))
}

/// The bytes of a bitmap are those in which its bits are set.
proof fn lemma_packed(bytes: Seq<u8>, i: int)
    requires
        0 <= i < bytes.len(),
        8 * bytes.len() <= u64::MAX,
    ensures
        bytes[i] == packed_byte(unpacked(bytes), i),
{
    let bits = unpacked(bytes);
    let c = flags(bits, i);
    assert forall|k: u64| k < 8 implies c[k as int] == byte_bit(bytes[i], k) by {
        let bit = (8 * i + k) as u64;
        assert(bit / 8 == i && bit % 8 == k);
    }
    lemma_byte_of_bits(bytes[i], c);
}

/// The bits that are set in the bytes of the bitmap with the bits of
/// `bits` are the bits of `bits`, where the bitmap has room for them.
pub proof fn lemma_unpacked(bits: Set<u64>, bytes: Seq<u8>)
    requires
        8 * bytes.len() <= u64::MAX,
        forall|bit: u64| bits.contains(bit) ==> bit < 8 * bytes.len(),
        forall|i: int| 0 <= i < bytes.len() ==> bytes[i] == packed_byte(bits, i),
    ensures
        unpacked(bytes) == bits,
{
    assert forall|bit: u64| unpacked(bytes).contains(bit) == bits.contains(bit) by {
        if bit / 8 < bytes.len() {
            let i = (bit / 8) as int;
            let c = flags(bits, i);
            lemma_bits_of_byte(c, bit % 8);
            assert(c[(bit % 8) as int] == bits.contains((8 * i + bit % 8) as u64));
            assert((8 * i + bit % 8) as u64 == bit);
        }
    }
    assert(unpacked(bytes) =~= bits);
}

/// A filter is read back from its bytes as it was written: the number of
/// its bits, the page at which the search tree starts, and the bits that
/// are set.
pub proof fn lemma_filter_round_trip(bits: Set<u64>, size: u64, rest: Seq<u8>)
    requires
        size + 7 <= u64::MAX,
        forall|bit: u64| bits.contains(bit) ==> bit < 8 * bytes_for(size),
    ensures
        holds_filter(filter_image(bits, size) + rest),
        word_at(filter_image(bits, size) + rest, 0) == size,
        word_at(filter_image(bits, size) + rest, 8) == tree_start(size),
        unpacked(stored_bits(filter_image(bits, size) + rest)) == bits,
{
    let image = filter_image(bits, size);
    let file = image + rest;
    let start = tree_start(size) as u64;
    assert forall|j: int| 0 <= j < 8 implies file[0 + j] == #[trigger] be_byte(size as i64, j) by {
        assert(file[j] == image[j]);
    }
    lemma_be_value_of_bytes(file, 0, size as i64);
    assert forall|j: int| 0 <= j < 8 implies file[8 + j] == #[trigger] be_byte(start as i64, j) by {
        assert(file[8 + j] == image[8 + j]);
    }
    lemma_be_value_of_bytes(file, 8, start as i64);
    assert((size as i64) as u64 == size) by (bit_vector);
    assert((start as i64) as u64 == start) by (bit_vector);
    let held = stored_bits(file);
    assert forall|i: int| 0 <= i < held.len() implies held[i] == packed_byte(bits, i) by {
        assert(held[i] == file[16 + i]);
        assert(file[16 + i] == image[16 + i]);
    }
    lemma_unpacked(bits, held);
}

/// Builds the filter of the records of `leaf_lst` with `bits_per_entry`
/// bits for each, and appends its bytes to the file at `filename`.
pub fn serialize_filter(
    disk: &mut Disk,
    filename: &str,
    leaf_lst: &Vec<(i64, i64)>,
    bits_per_entry: &u8,
)
    requires
        *bits_per_entry * leaf_lst@.len() + 7 + 16 + 4096 <= usize::MAX,
        *bits_per_entry > 0 || leaf_lst@.len() == 0,
    ensures
        final(disk)@ == appended(
            old(disk)@,
            filename@,
            filter_image(
                filter_bits(leaf_lst@, (*bits_per_entry * leaf_lst@.len()) as u64),
                (*bits_per_entry * leaf_lst@.len()) as u64,
            ),
        ),
{
    let bitmap = construct_filter(leaf_lst, bits_per_entry);
    let ghost image = filter_image(bitmap@, bitmap.size);
    let mut bytes: Vec<u8> = Vec::new();
    push_be(&mut bytes, #[verifier::truncate] (bitmap.size as i64));
    let in_byte_size: u64 = (bitmap.size + 7) / 8;
    let btree_idx: u64 = (16 + in_byte_size + 4095) / 4096;
    push_be(&mut bytes, #[verifier::truncate] (btree_idx as i64));
    let held: usize = bitmap.bits.len();
    let mut i: usize = 0;
    while i < held
        invariant
            i <= held == bitmap.bits@.len() == bytes_for(bitmap.size),
            held + 16 + 4096 <= usize::MAX,
            8 * held <= u64::MAX,
            bytes@.len() == 16 + i,
            forall|j: int| 0 <= j < 16 + i ==> bytes@[j] == image[j],
            image == filter_image(bitmap@, bitmap.size),
        decreases held - i,
    {
        proof {
            lemma_packed(bitmap.bits@, i as int);
            assert(bitmap@ =~= unpacked(bitmap.bits@));
        }
        bytes.push(bitmap.bits[i]);
        i += 1;
    }
    let used: usize = bytes.len();
    let padding_size: usize = if used % 4096 != 0 {
        4096 - used % 4096
    } else {
        0
    };
    let mut k: usize = 0;
    while k < padding_size
        invariant
            k <= padding_size,
            used == 16 + bytes_for(bitmap.size),
            used + padding_size == page_ceil(used as nat),
            used + 4096 <= usize::MAX,
            bytes@.len() == used + k,
            forall|j: int| 0 <= j < used + k ==> bytes@[j] == image[j],
            image == filter_image(bitmap@, bitmap.size),
        decreases padding_size - k,
    {
        bytes.push(0);
        k += 1;
    }
    assert(bytes@ =~= image);
    disk.append(filename, bytes);
}

/// Reads the filter that the file at `filename` begins with: the filter,
/// and the page at which the search tree starts.
pub fn deserialize_filter(disk: &Disk, filename: &str) -> (found: (Bitmap, usize))
    requires
        disk@.contains_key(filename@),
        holds_filter(disk@[filename@]),
    ensures
        found.0.wf(),
        found.0.spec_size() == word_at(disk@[filename@], 0),
        found.0@ == unpacked(stored_bits(disk@[filename@])),
        found.1 == word_at(disk@[filename@], 8) as usize,
{
    let file: Vec<u8> = match disk.read_file(filename) {
        Some(bytes) => bytes,
        None => Vec::new(),
    };
    let bitmap_size: u64 = #[verifier::truncate] (read_be(file.as_slice(), 0) as u64);
    let btree_idx: u64 = #[verifier::truncate] (read_be(file.as_slice(), 8) as u64);
    let len: usize = file.len();
    let in_byte_size: usize = ((bitmap_size + 7) / 8) as usize;
    let mut bitmap_bytes: Vec<u8> = Vec::new();
    let mut i: usize = 0;
    while i < in_byte_size
        invariant
            i <= in_byte_size,
            16 + in_byte_size <= len == file@.len(),
            bitmap_bytes@ == file@.subrange(16, 16 + i),
        decreases in_byte_size - i,
    {
        bitmap_bytes.push(file[16 + i]);
        assert(bitmap_bytes@ =~= file@.subrange(16, 16 + i + 1));
        i += 1;
    }
    let bitmap = Bitmap { bits: bitmap_bytes, size: bitmap_size };
    assert(bitmap@ =~= unpacked(bitmap.bits@));
    (bitmap, #[verifier::truncate] (btree_idx as usize))
}

/// After a key was added to a filter, the filter answers that it may hold
/// the key, whatever was added before or is added after.
pub proof fn lemma_insert_then_check(before: Set<u64>, key: i64, size: u64, after: Set<u64>)
    ensures
        key_bits(key, size).subset_of(before.union(key_bits(key, size)).union(after)),
{
}

/// A filter over records answers of each of their keys that it may hold it.
pub proof fn lemma_filter_holds_keys(records: Seq<(i64, i64)>, size: u64, i: int)
    requires
        0 <= i < records.len(),
    ensures
        key_bits(records[i].0, size).subset_of(filter_bits(records, size)),
    decreases records.len(),
{
    if i < records.len() - 1 {
        lemma_filter_holds_keys(records.drop_last(), size, i);
        assert(records.drop_last()[i] == records[i]);
    }
}

} // verus!
