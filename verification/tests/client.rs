use kv::buffer::{BufferKey, BufferPool};
use kv::disk::Disk;
use kv::memtable::Memtable;
use kv::path::{internal_path, leaf_path};
use kv::sst::{deserialize_page, serialize_kv_to_file};
use kv::{Client, KVConfig, StorageType};
use std::collections::HashMap;

#[test]
fn test_get_from_ssts() {
    let mut kv: Client = Client::open(
        "getTestDB1".to_string(),
        KVConfig::default()
            .storage_type(StorageType::AppendOnlyLog)
            .cleanup(true),
        Disk::new(),
    );

    for i in 0..200 {
        kv.put(i as i64, (i * 2) as i64);
    }

    let key1: i64 = 12;
    let key2: i64 = 110;

    assert_eq!(Some(24), kv.get(key1));
    assert_eq!(Some(220), kv.get(key2));
}

#[test]
fn test_memtable_flush() {
    let db_name: String = "flushTestDB1".to_string();

    let mut kv: Client = Client::open(
        db_name,
        KVConfig::default()
            .storage_type(StorageType::AppendOnlyLog)
            .cleanup(true),
        Disk::new(),
    );
    for i in 0..=98 {
        kv.update(i, i);
    }
    assert_eq!(kv.buffered_len(), 99);
    assert!(kv.disk().paths().is_empty());
    assert!(kv.wants_cleanup());
}

#[test]
fn test_get_from_ssts_medium() {
    let mut kv: Client = Client::open(
        "BTree_getTestDB1".to_string(),
        KVConfig::default()
            .storage_type(StorageType::BTree)
            .cleanup(true),
        Disk::new(),
    );

    for i in 0..20005 {
        kv.put(i as i64, (i * 2) as i64);
    }

    let key1: i64 = 3899;
    let key2: i64 = 8763;
    let key3: i64 = 20006;
    assert_eq!(Some(3899 * 2), kv.get(key1));
    assert_eq!(Some(8763 * 2), kv.get(key2));
    assert_eq!(None, kv.get(key3));
}

#[test]
fn append_only_get_across_runs() {
    let mut kv: Client = Client::open(
        "across".to_string(),
        KVConfig::default().memtable_size(100),
        Disk::new(),
    );
    for i in 0..200 {
        kv.put(i, i * 2);
    }
    assert_eq!(kv.buffered_len(), 0);
    assert_eq!(
        kv.disk().paths(),
        vec!["./across/output_0.bin", "./across/output_1.bin"]
    );
    assert_eq!(kv.get(12), Some(24));
    assert_eq!(kv.get(110), Some(220));
    assert_eq!(kv.get(250), None);
}

fn delete_scenario(storage: StorageType, flush_between: bool) {
    let mut kv: Client = Client::open(
        "del".to_string(),
        KVConfig::default().memtable_size(4).storage_type(storage),
        Disk::new(),
    );
    kv.put(7, 100);
    if flush_between {
        kv.close();
    }
    kv.delete(7);
    assert_eq!(kv.get(7), None);
    let found = kv.scan(0, 10);
    assert!(found.iter().all(|r| r.0 != 7));
    kv.close();
    assert_eq!(kv.get(7), None);
    let found = kv.scan(0, 10);
    assert!(found.iter().all(|r| r.0 != 7));
    kv.put(7, 5);
    assert_eq!(kv.get(7), Some(5));
    assert_eq!(kv.scan(0, 10), vec![(7, 5)]);
}

#[test]
fn delete_in_the_append_only_backend() {
    delete_scenario(StorageType::AppendOnlyLog, false);
    delete_scenario(StorageType::AppendOnlyLog, true);
}

#[test]
fn delete_in_the_tree_backend() {
    delete_scenario(StorageType::BTree, false);
    delete_scenario(StorageType::BTree, true);
}

#[test]
fn delete_in_the_merge_tree() {
    delete_scenario(StorageType::LSMTree, false);
    delete_scenario(StorageType::LSMTree, true);
}

fn newest_wins(storage: StorageType) {
    let mut kv: Client = Client::open(
        "newest".to_string(),
        KVConfig::default()
            .memtable_size(64)
            .bufferpool_size(8)
            .storage_type(storage),
        Disk::new(),
    );
    let mut model: HashMap<i64, i64> = HashMap::new();
    let mut x: i64 = 12345;
    for step in 0..5000 {
        x = (x * 1103515245 + 12345) % 2147483648;
        let key: i64 = (x % 700 - 100) * 3;
        if step % 7 == 3 {
            kv.delete(key);
            model.remove(&key);
        } else {
            kv.put(key, step);
            model.insert(key, step);
        }
        if step % 97 == 0 {
            for probe in -320..1820 {
                assert_eq!(kv.get(probe), model.get(&probe).copied());
            }
        }
    }
    for probe in -320..1820 {
        assert_eq!(kv.get(probe), model.get(&probe).copied());
    }
    for (lo, hi) in [(-3000, 3000), (-300, -150), (0, 2), (17, 400), (1790, 2100), (5, 4)] {
        let mut found = kv.scan(lo, hi);
        found.sort();
        let mut expected: Vec<(i64, i64)> = model
            .iter()
            .filter(|(k, _)| lo <= **k && **k <= hi)
            .map(|(k, v)| (*k, *v))
            .collect();
        expected.sort();
        assert_eq!(found, expected);
    }
}

#[test]
fn newest_write_wins_in_the_append_only_backend() {
    newest_wins(StorageType::AppendOnlyLog);
}

#[test]
fn newest_write_wins_in_the_tree_backend() {
    newest_wins(StorageType::BTree);
}

#[test]
fn newest_write_wins_in_the_merge_tree() {
    newest_wins(StorageType::LSMTree);
}

#[test]
fn scan_of_an_empty_range_is_empty() {
    let mut kv: Client = Client::open("e".to_string(), KVConfig::default(), Disk::new());
    kv.put(1, 1);
    assert!(kv.scan(2, 1).is_empty());
    assert_eq!(kv.scan(1, 1), vec![(1, 1)]);
}

#[test]
fn merge_tree_levels_follow_the_bits_of_the_flush_count() {
    let memtable_size: u32 = 300;
    let mut kv: Client = Client::open(
        "bits".to_string(),
        KVConfig::default()
            .memtable_size(memtable_size)
            .storage_type(StorageType::LSMTree),
        Disk::new(),
    );
    let mut next: i64 = 0;
    for flushes in 1u32..=21 {
        for _ in 0..memtable_size {
            kv.put(next, next);
            next += 1;
        }
        let mut expected: Vec<String> = Vec::new();
        for level in 1u32..=6 {
            if (flushes >> (level - 1)) & 1 == 1 {
                let run: u32 = (flushes >> (level - 1)) << (level - 1);
                let leaf = leaf_path("bits", level, run);
                let pages = (1usize << (level - 1)) * 300;
                assert_eq!(kv.disk().page_count(&leaf), (pages + 255) / 256);
                let mut records: usize = 0;
                for page in 0..kv.disk().page_count(&leaf) {
                    records += deserialize_page(kv.disk(), &leaf, page * 4096).len();
                }
                assert_eq!(records, (1usize << (level - 1)) * 300);
                expected.push(leaf);
                expected.push(internal_path("bits", level, run));
            }
        }
        let mut held = kv.disk().paths();
        held.sort();
        expected.sort();
        assert_eq!(held, expected);
    }
}

#[test]
fn a_merge_keeps_the_newer_of_two_records() {
    let mut kv: Client = Client::open(
        "m".to_string(),
        KVConfig::default()
            .memtable_size(2)
            .storage_type(StorageType::LSMTree),
        Disk::new(),
    );
    kv.put(1, 10);
    kv.put(2, 20);
    kv.put(2, 21);
    kv.put(3, 30);
    let leaf = leaf_path("m", 2, 2);
    assert_eq!(kv.disk().paths(), vec![leaf.clone()]);
    assert_eq!(
        deserialize_page(kv.disk(), &leaf, 0),
        vec![(1, 10), (2, 21), (3, 30)]
    );
    assert_eq!(kv.get(2), Some(21));
}

#[test]
fn cache_of_no_pages_reads_the_disk_each_time() {
    let mut disk = Disk::new();
    serialize_kv_to_file(&mut disk, "f", &vec![(1, 2)]);
    let mut pool = BufferPool::new(0);
    assert_eq!(pool.find_page(&disk, "f", 0), vec![(1, 2)]);
    assert_eq!(pool.curr_size(), 0);
    assert_eq!(pool.find_buffer_page(&BufferKey::new("f".to_string(), 0)), None);
    assert_eq!(pool.find_page(&disk, "f", 0), vec![(1, 2)]);
}

#[test]
fn cache_returns_what_the_disk_holds() {
    let mut disk = Disk::new();
    for f in 0..4 {
        let mut records: Vec<(i64, i64)> = Vec::new();
        for i in 0..600 {
            records.push((i, i * f));
        }
        serialize_kv_to_file(&mut disk, &format!("f{}", f), &records);
    }
    let mut pool = BufferPool::new(5);
    let mut x: usize = 7;
    for _ in 0..500 {
        x = (x * 31 + 11) % 1009;
        let name = format!("f{}", x % 4);
        let offset = ((x / 4) % 3) * 4096;
        assert_eq!(
            pool.find_page(&disk, &name, offset),
            deserialize_page(&disk, &name, offset)
        );
        assert!(pool.curr_size() <= 5);
    }
}

#[test]
fn cache_keeps_the_pages_read_last() {
    let mut disk = Disk::new();
    let mut records: Vec<(i64, i64)> = Vec::new();
    for i in 0..256 * 9 {
        records.push((i, i));
    }
    serialize_kv_to_file(&mut disk, "f", &records);
    let mut pool = BufferPool::new(4);
    for page in 0..9 {
        pool.find_page(&disk, "f", page * 4096);
    }
    assert_eq!(pool.curr_size(), 4);
    assert_eq!(pool.size(), 4);
    for page in 0..9 {
        let key = BufferKey::new("f".to_string(), page * 4096);
        assert_eq!(pool.find_buffer_page(&key).is_some(), page >= 5);
    }
}

#[test]
fn memtable_scan_all_is_sorted() {
    let mut tree = Memtable::new();
    let mut x: i64 = 99;
    for _ in 0..2000 {
        x = (x * 1103515245 + 12345) % 2147483648;
        tree.put(x % 500 - 250, x);
    }
    let all = tree.scan_all();
    assert_eq!(all.len() as u32, tree.size());
    for pair in all.windows(2) {
        assert!(pair[0].0 < pair[1].0);
    }
    for (key, value) in &all {
        assert_eq!(tree.get(*key), Some(*value));
    }
}

#[test]
fn memtable_put_then_get() {
    let mut tree = Memtable::default();
    tree.put(5, 1);
    assert_eq!(tree.get(5), Some(1));
    tree.put(5, 2);
    assert_eq!(tree.get(5), Some(2));
    assert_eq!(tree.size(), 1);
    tree.put(i64::MIN, i64::MIN);
    assert_eq!(tree.get(i64::MIN), Some(i64::MIN));
    assert_eq!(tree.size(), 2);
}

#[test]
fn memtable_scan_adds_what_the_map_lacks() {
    let mut tree = Memtable::new();
    for i in 0..20 {
        tree.put(i, i * 10);
    }
    let mut found: HashMap<i64, i64> = HashMap::new();
    found.insert(7, -7);
    found.insert(100, 1);
    tree.scan(5, 9, &mut found);
    assert_eq!(found.len(), 6);
    assert_eq!(found.get(&5), Some(&50));
    assert_eq!(found.get(&7), Some(&-7));
    assert_eq!(found.get(&9), Some(&90));
    assert_eq!(found.get(&100), Some(&1));
    tree.scan(30, 40, &mut found);
    assert_eq!(found.len(), 6);
}

#[test]
fn default_settings() {
    let kv: Client = Client::open("d".to_string(), KVConfig::default(), Disk::new());
    assert!(!kv.wants_cleanup());
    let mut kv: Client = Client::open(
        "d".to_string(),
        KVConfig::default().memtable_size(1),
        Disk::new(),
    );
    kv.put(1, 1);
    assert_eq!(kv.disk().paths(), vec!["./d/output_0.bin"]);
    let disk = {
        let mut d = Disk::new();
        d.append("./d/output_0.bin", Vec::new());
        d.append("./d/output_1.bin", Vec::new());
        d
    };
    let mut kv: Client = Client::open(
        "d".to_string(),
        KVConfig::default().memtable_size(1),
        disk,
    );
    kv.put(1, 1);
    assert_eq!(
        kv.disk().paths(),
        vec!["./d/output_0.bin", "./d/output_1.bin", "./d/output_2.bin"]
    );
}

fn reopened(storage: StorageType) {
    let mut kv: Client = Client::open(
        "again".to_string(),
        KVConfig::default().memtable_size(10).storage_type(storage),
        Disk::new(),
    );
    for i in 0..35 {
        kv.put(i, i * i);
    }
    kv.close();
    let mut disk = Disk::new();
    for path in kv.disk().paths() {
        disk.append(&path, kv.disk().read_file(&path).unwrap());
    }
    let mut kv: Client = Client::open(
        "again".to_string(),
        KVConfig::default().memtable_size(10).storage_type(storage),
        disk,
    );
    for i in 0..35 {
        assert_eq!(kv.get(i), Some(i * i));
    }
    assert_eq!(kv.get(35), None);
    kv.put(3, -3);
    kv.close();
    assert_eq!(kv.get(3), Some(-3));
    assert_eq!(kv.disk().paths().len(), 5);
    let mut found = kv.scan(0, 100);
    found.sort();
    assert_eq!(found.len(), 35);
    assert_eq!(found[3], (3, -3));
    assert_eq!(found[34], (34, 34 * 34));
}

#[test]
fn runs_survive_a_reopening() {
    reopened(StorageType::AppendOnlyLog);
    reopened(StorageType::BTree);
}

#[test]
fn records_are_read_back_page_by_page() {
    let mut x: i64 = 4711;
    for count in [1usize, 2, 255, 256, 257, 512, 1000] {
        let mut records: Vec<(i64, i64)> = Vec::new();
        for _ in 0..count {
            x = x.wrapping_mul(6364136223846793005).wrapping_add(1442695040888963407);
            let key = x;
            x = x.wrapping_mul(6364136223846793005).wrapping_add(1442695040888963407);
            records.push((key, x));
        }
        let mut disk = Disk::new();
        serialize_kv_to_file(&mut disk, "f", &records);
        let pages = (count + 255) / 256;
        assert_eq!(disk.file_len("f"), Some(pages * 4096));
        for page in 0..pages {
            let end = if (page + 1) * 256 < count { (page + 1) * 256 } else { count };
            assert_eq!(
                deserialize_page(&disk, "f", page * 4096),
                records[page * 256..end].to_vec()
            );
        }
    }
}

fn scan_reaches_older_runs(storage: StorageType) {
    let mut kv: Client = Client::open(
        "older".to_string(),
        KVConfig::default().memtable_size(2).storage_type(storage),
        Disk::new(),
    );
    kv.put(2, 20);
    kv.put(3, 30);
    kv.put(0, 0);
    kv.put(1, 10);
    assert_eq!(kv.get(2), Some(20));
    let mut found = kv.scan(0, 2);
    found.sort();
    assert_eq!(found, vec![(0, 0), (1, 10), (2, 20)]);
    let mut found = kv.scan(2, 2);
    found.sort();
    assert_eq!(found, vec![(2, 20)]);
    let mut found = kv.scan(1, 3);
    found.sort();
    assert_eq!(found, vec![(1, 10), (2, 20), (3, 30)]);
    assert_eq!(kv.scan(4, 9), vec![]);
}

#[test]
fn a_scan_returns_every_key_that_a_get_finds() {
    scan_reaches_older_runs(StorageType::AppendOnlyLog);
    scan_reaches_older_runs(StorageType::BTree);
    scan_reaches_older_runs(StorageType::LSMTree);
}

fn scan_agrees_with_get(storage: StorageType) {
    let mut kv: Client = Client::open(
        "agree".to_string(),
        KVConfig::default().memtable_size(7).storage_type(storage),
        Disk::new(),
    );
    let mut x: u64 = 99;
    for _ in 0..400 {
        x = x.wrapping_mul(6364136223846793005).wrapping_add(1442695040888963407);
        let key = ((x >> 33) % 60) as i64;
        if (x >> 20) % 5 == 0 {
            kv.delete(key);
        } else {
            kv.put(key, (x >> 40) as i64);
        }
    }
    for lo in 0..60i64 {
        for hi in [lo, lo + 1, lo + 5, 59] {
            if hi < lo {
                continue;
            }
            let mut found = kv.scan(lo, hi);
            found.sort();
            let mut expected: Vec<(i64, i64)> = Vec::new();
            for k in lo..=hi {
                if let Some(v) = kv.get(k) {
                    expected.push((k, v));
                }
            }
            assert_eq!(found, expected);
        }
    }
}

#[test]
fn a_scan_of_any_range_agrees_with_the_gets() {
    scan_agrees_with_get(StorageType::AppendOnlyLog);
    scan_agrees_with_get(StorageType::BTree);
    scan_agrees_with_get(StorageType::LSMTree);
}

fn close_writes_once(storage: StorageType) {
    let mut kv: Client = Client::open(
        "once".to_string(),
        KVConfig::default().memtable_size(10).storage_type(storage),
        Disk::new(),
    );
    kv.close();
    assert_eq!(kv.disk().paths().len(), 0);
    kv.put(1, 2);
    kv.put(3, 4);
    assert_eq!(kv.disk().paths().len(), 0);
    assert_eq!(kv.buffered_len(), 2);
    kv.close();
    assert_eq!(kv.buffered_len(), 0);
    let files = kv.disk().paths();
    assert!(!files.is_empty());
    let bytes: Vec<Vec<u8>> = files.iter().map(|f| kv.disk().read_file(f).unwrap()).collect();
    assert_eq!(kv.get(1), Some(2));
    assert_eq!(kv.get(3), Some(4));
    kv.close();
    assert_eq!(kv.disk().paths(), files);
    let again: Vec<Vec<u8>> = files.iter().map(|f| kv.disk().read_file(f).unwrap()).collect();
    assert_eq!(again, bytes);
}

#[test]
fn a_close_writes_one_run_and_a_second_close_none() {
    close_writes_once(StorageType::AppendOnlyLog);
    close_writes_once(StorageType::BTree);
    close_writes_once(StorageType::LSMTree);
}
