use kv::disk::Disk;
use kv::{Client, KVConfig, StorageType};

#[test]
fn lsm_get() {
    let mut db = Client::open(
        "lsm_test".to_string(),
        KVConfig::default()
            .memtable_size(256 * 256)
            .storage_type(StorageType::LSMTree)
            .cleanup(true),
        Disk::new(),
    );

    let c = 1_000_000;
    for i in 0..c {
        db.put(i, i + 5);
    }

    for i in 0..c {
        assert_eq!(db.get(i).unwrap(), i + 5);
    }
}

#[test]
fn lsm_scan() {
    let mut db = Client::open(
        "lsm_scan".to_string(),
        KVConfig::default()
            .memtable_size(256 * 256)
            .storage_type(StorageType::LSMTree)
            .cleanup(true),
        Disk::new(),
    );

    let c = 1_000_000;
    for i in 0..c {
        db.put(i, i + 5);
    }

    let a = db.scan(0, 30);

    assert!(a.len() == 31);
    for pair in a {
        assert!(pair.0 + 5 == pair.1)
    }
}

#[test]
fn the_leaf_files_follow_the_flush_count_whatever_the_records() {
    let pad: i64 = 0xdeadbeefdeadbeefu64 as i64;
    let mut disk = Disk::new();
    let mut tree = kv::storage::LSMTree::new("any".to_string(), 4, 3);
    for flushes in 1u32..=11 {
        let contents: Vec<(i64, i64)> = if flushes % 2 == 0 {
            vec![(pad, pad)]
        } else {
            vec![(pad, pad), (1, flushes as i64), (2, 2)]
        };
        kv::storage::DiskStorage::flush(&mut tree, &mut disk, flushes - 1, contents);
        assert_eq!(tree.tree_size(), flushes);
        let mut expected: Vec<String> = Vec::new();
        for level in 1u32..=5 {
            if (flushes >> (level - 1)) & 1 == 1 {
                let run: u32 = (flushes >> (level - 1)) << (level - 1);
                expected.push(kv::path::leaf_path("any", level, run));
            }
        }
        let mut leaves: Vec<String> =
            disk.paths().into_iter().filter(|p| p.contains("output_leaf_")).collect();
        leaves.sort();
        expected.sort();
        assert_eq!(leaves, expected);
        for path in disk.paths() {
            if path.contains("output_internal_") {
                let leaf = path.replace("output_internal_", "output_leaf_");
                assert!(expected.contains(&leaf));
            }
        }
    }
}
