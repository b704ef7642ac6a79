use kv::filter::{construct_filter, Bitmap, BloomFilter};

#[test]
fn test_filter_insert_and_check() {
    let mut bitmap = Bitmap::new(200 * 10);
    let key1: i64 = 137;
    bitmap.insert_key(key1);
    assert!(bitmap.check_key(key1));
    let key2: i64 = 56;
    assert!(!bitmap.check_key(key2));
    bitmap.insert_key(key2);
    assert!(bitmap.check_key(key2));
    let key3: i64 = 178;
    assert!(!bitmap.check_key(key3));
}

#[test]
fn test_filter_construction() {
    let mut lst: Vec<(i64, i64)> = Vec::new();
    for i in 0..=511 {
        lst.push((i, i));
    }
    let filter: Bitmap = construct_filter(&lst, &(10 as u8));
    assert!(filter.check_key(299 as i64));
    assert!(!filter.check_key(513 as i64));
}

#[test]
fn filter_has_no_false_negatives() {
    let mut lst: Vec<(i64, i64)> = Vec::new();
    for i in -300..300 {
        lst.push((i * 7919, i));
    }
    let filter: Bitmap = construct_filter(&lst, &10u8);
    assert_eq!(filter.size(), 6000);
    for (key, _) in &lst {
        assert!(filter.check_key(*key));
    }
}

#[test]
fn bitmap_bits_are_set_one_by_one() {
    let mut bitmap = Bitmap::new(20);
    for idx in 0..20 {
        assert!(!bitmap.is_set(idx));
    }
    bitmap.set(0);
    bitmap.set(9);
    bitmap.set(19);
    for idx in 0..20 {
        assert_eq!(bitmap.is_set(idx), idx == 0 || idx == 9 || idx == 19);
    }
    bitmap.reset(1);
    assert!(bitmap.is_set(0));
}

#[test]
fn empty_filter_holds_nothing() {
    let bitmap = Bitmap::new(64);
    assert!(!bitmap.check_key(0));
    assert!(!bitmap.check_key(i64::MIN));
    assert!(!bitmap.check_key(i64::MAX));
}

#[test]
fn a_filter_is_read_back_from_its_file() {
    let mut lst: Vec<(i64, i64)> = Vec::new();
    for i in 0..=511 {
        lst.push((i, i));
    }
    let mut disk = kv::disk::Disk::new();
    kv::filter::serialize_filter(&mut disk, "f.bin", &lst, &10u8);
    let file = disk.read_file("f.bin").unwrap();
    assert_eq!(file.len(), 4096);
    assert_eq!(file[0..8], 5120u64.to_be_bytes());
    assert_eq!(file[8..16], 1u64.to_be_bytes());
    assert!(file[16 + 640..].iter().all(|b| *b == 0));
    let built = kv::filter::construct_filter(&lst, &10u8);
    for bit in 0..5120u64 {
        assert_eq!(file[16 + (bit / 8) as usize] >> (bit % 8) & 1 == 1, built.is_set(bit));
    }
    let (filter, btree_idx) = kv::filter::deserialize_filter(&disk, "f.bin");
    assert_eq!(filter.size(), 512 * 10);
    assert!(!filter.check_key(512));
    assert!(filter.check_key(511));
    assert!(!filter.check_key(999));
    assert!(filter.check_key(348));
    assert_eq!(btree_idx, 1);
    for bit in 0..5120u64 {
        assert_eq!(filter.is_set(bit), built.is_set(bit));
    }
}

#[test]
fn a_large_filter_moves_the_tree_to_a_later_page() {
    let mut lst: Vec<(i64, i64)> = Vec::new();
    for i in 0..4000 {
        lst.push((i * 3, i));
    }
    let mut disk = kv::disk::Disk::new();
    kv::filter::serialize_filter(&mut disk, "g.bin", &lst, &10u8);
    assert_eq!(disk.file_len("g.bin"), Some(8192));
    let (filter, btree_idx) = kv::filter::deserialize_filter(&disk, "g.bin");
    assert_eq!(filter.size(), 40000);
    assert_eq!(btree_idx, 2);
    for i in 0..4000 {
        assert!(filter.check_key(i * 3));
    }
    let empty: Vec<(i64, i64)> = Vec::new();
    kv::filter::serialize_filter(&mut disk, "h.bin", &empty, &10u8);
    assert_eq!(disk.file_len("h.bin"), Some(4096));
    let (filter, btree_idx) = kv::filter::deserialize_filter(&disk, "h.bin");
    assert_eq!(filter.size(), 0);
    assert_eq!(btree_idx, 1);
}
