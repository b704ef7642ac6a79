use kv::buffer::{BufferKey, BufferPool};
use kv::filter::{Bitmap, BloomFilter};
use std::hash::Hasher;

const SEEDS: [u64; 10] = [
    11798049322123270191,
    15539830439605854879,
    6578765718544580074,
    71743494464343003,
    9094065546985931996,
    17578418613310108530,
    3998834685102698833,
    17224146472807812495,
    13715473566396950222,
    7265912439666505101,
];

#[test]
fn a_key_sets_the_bits_of_its_ten_hashes() {
    for key in [0i64, 1, -1, 137, i64::MIN, i64::MAX, 0x0102030405060708] {
        let size: u64 = 1000;
        let mut bitmap = Bitmap::new(size);
        bitmap.insert_key(key);
        let mut expected: Vec<u64> = Vec::new();
        for seed in SEEDS {
            let mut hasher = twox_hash::XxHash64::with_seed(seed);
            hasher.write(&key.to_be_bytes());
            expected.push(hasher.finish() % size);
        }
        for bit in 0..size {
            assert_eq!(bitmap.is_set(bit), expected.contains(&bit));
        }
    }
}

#[test]
fn a_page_goes_to_the_bucket_of_its_hash() {
    let size: usize = 7;
    for (name, offset) in [("sst1", 0usize), ("sst1", 4096), ("./db/output_12.bin", 81920), ("", 5)] {
        let mut pool = BufferPool::new(size);
        pool.insert(BufferKey::new(name.to_string(), offset), vec![(offset as i64, 1)]);
        let text = format!("{} {}", name, offset);
        let bucket = (twox_hash::xxh3::hash64(text.as_bytes()) % size as u64) as usize;
        for b in 0..size {
            let pages = pool.bucket_pages(b);
            if b == bucket {
                assert_eq!(pages, vec![vec![(offset as i64, 1)]]);
            } else {
                assert!(pages.is_empty());
            }
        }
    }
}

#[test]
fn pages_of_one_bucket_are_chained_newest_first() {
    let mut pool = BufferPool::new(1);
    pool.insert(BufferKey::new("a".to_string(), 0), vec![(1, 1)]);
    assert_eq!(pool.bucket_pages(0), vec![vec![(1, 1)]]);
    pool.insert(BufferKey::new("b".to_string(), 0), vec![(2, 2)]);
    assert_eq!(pool.bucket_pages(0), vec![vec![(2, 2)]]);
    let mut pool = BufferPool::new(3);
    let mut in_bucket: Vec<Vec<Vec<(i64, i64)>>> = vec![Vec::new(); 3];
    for i in 0..3i64 {
        let name = format!("f{}", i);
        pool.insert(BufferKey::new(name.clone(), 0), vec![(i, i)]);
        let text = format!("{} 0", name);
        let bucket = (twox_hash::xxh3::hash64(text.as_bytes()) % 3) as usize;
        in_bucket[bucket].insert(0, vec![(i, i)]);
    }
    for b in 0..3 {
        assert_eq!(pool.bucket_pages(b), in_bucket[b]);
    }
}
