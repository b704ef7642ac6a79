use kv::buffer::BufferPool;
use kv::disk::Disk;
use kv::page::PAGE_SIZE;
use kv::sst::{deserialize_page, serialize_kv_to_file};
use kv::storage::btree::{
    convert_sorted_arr_to_b_tree_arr_and_serialize, get_b_tree_ssts, scan_b_tree_ssts,
    search_b_tree_sst,
};
use kv::storage::layout::build_internal_pages;
use kv::storage::part3btree::{
    part3_create_b_tree_internal_file, part3_scan_b_tree_sst, part3_search_b_tree_sst,
};
use kv::search::binary_search_internal_se_key;
use std::collections::HashMap;

#[test]
fn test_create_b_tree_internal_file() {
    let folder_path: &str = "./Part3BTree_DB1";
    let leaf_filename: String = format!("{}output_1_leaf.bin", folder_path);
    let internal_filename: String = format!("{}output_1_internal.bin", folder_path);
    let mut disk = Disk::new();

    let mut kv_arr: Vec<(i64, i64)> = Vec::new();
    for i in 0..256 * 100 {
        kv_arr.push((i as i64, (i * 2) as i64));
    }
    serialize_kv_to_file(&mut disk, &leaf_filename, &kv_arr);

    part3_create_b_tree_internal_file(&mut disk, &leaf_filename, &internal_filename);

    let mut buffer = BufferPool::new(16);
    // test get
    assert_eq!(
        Some(22679 * 2 as i64),
        part3_search_b_tree_sst(&disk, &leaf_filename, &internal_filename, 22679, &mut buffer)
    );
    assert_eq!(
        None,
        part3_search_b_tree_sst(
            &disk,
            &leaf_filename,
            &internal_filename,
            256 * 100,
            &mut buffer
        )
    );
    // test scan
    let mut kv_hash: HashMap<i64, i64> = HashMap::new();
    part3_scan_b_tree_sst(
        &disk,
        &leaf_filename,
        &internal_filename,
        333 as i64,
        9999 as i64,
        &mut kv_hash,
        &mut buffer,
    );
    for i in 333..9999 {
        assert_eq!(i * 2 as i64, *kv_hash.get(&i).unwrap());
    }
    assert_eq!(kv_hash.len(), 9999 - 333 + 1);
}

#[test]
fn every_key_of_a_two_file_run_is_found() {
    let mut disk = Disk::new();
    let mut kv_arr: Vec<(i64, i64)> = Vec::new();
    for i in 0..256 * 100 {
        kv_arr.push((i as i64 * 3, i as i64));
    }
    serialize_kv_to_file(&mut disk, "leaf", &kv_arr);
    part3_create_b_tree_internal_file(&mut disk, "leaf", "index");
    assert_eq!(disk.page_count("index"), 1);
    let mut buffer = BufferPool::new(8);
    for i in 0..256 * 100 {
        assert_eq!(
            Some(i as i64),
            part3_search_b_tree_sst(&disk, "leaf", "index", i as i64 * 3, &mut buffer)
        );
        assert_eq!(
            None,
            part3_search_b_tree_sst(&disk, "leaf", "index", i as i64 * 3 + 1, &mut buffer)
        );
    }
    assert_eq!(None, part3_search_b_tree_sst(&disk, "leaf", "index", -1, &mut buffer));
}

#[test]
fn a_run_of_one_page_has_no_index_file() {
    let mut disk = Disk::new();
    serialize_kv_to_file(&mut disk, "leaf", &vec![(1, 10), (5, 50)]);
    part3_create_b_tree_internal_file(&mut disk, "leaf", "index");
    assert!(!disk.contains("index"));
    let mut buffer = BufferPool::new(2);
    assert_eq!(Some(50), part3_search_b_tree_sst(&disk, "leaf", "index", 5, &mut buffer));
    assert_eq!(None, part3_search_b_tree_sst(&disk, "leaf", "index", 4, &mut buffer));
}

#[test]
fn tree_of_two_leaves_has_one_root_page() {
    let mut disk = Disk::new();
    let mut records: Vec<(i64, i64)> = Vec::new();
    for i in 0..300 {
        records.push((i, i * 2));
    }
    convert_sorted_arr_to_b_tree_arr_and_serialize(&mut disk, "./t/output_0.bin", &records);
    assert_eq!(disk.page_count("./t/output_0.bin"), 3);
    assert_eq!(
        deserialize_page(&disk, "./t/output_0.bin", 0),
        vec![(256, 1), (256, 2)]
    );
    assert_eq!(deserialize_page(&disk, "./t/output_0.bin", PAGE_SIZE).len(), 256);
    assert_eq!(deserialize_page(&disk, "./t/output_0.bin", 2 * PAGE_SIZE).len(), 44);
}

#[test]
fn upper_levels_of_a_tree_over_257_leaves() {
    let mins: Vec<i64> = (0..257).map(|j| j * 1000).collect();
    let pages = build_internal_pages(mins);
    assert_eq!(pages.len(), 3);
    assert_eq!(pages[0], vec![(129000, 1), (129000, 2)]);
    assert_eq!(pages[1].len(), 129);
    assert_eq!(pages[2].len(), 128);
    assert_eq!(pages[1][0], (1000, 3));
    assert_eq!(pages[1][1], (1000, 4));
    assert_eq!(pages[1][128], (128000, 131));
    assert_eq!(pages[2][0], (130000, 132));
    assert_eq!(pages[2][1], (130000, 133));
    assert_eq!(pages[2][127], (256000, 259));
}

#[test]
fn every_key_of_a_tree_with_two_upper_levels_is_found() {
    let mut disk = Disk::new();
    let count: i64 = 257 * 256;
    let mut records: Vec<(i64, i64)> = Vec::new();
    for i in 0..count {
        records.push((i * 2, i + 7));
    }
    convert_sorted_arr_to_b_tree_arr_and_serialize(&mut disk, "./big/output_0.bin", &records);
    assert_eq!(disk.page_count("./big/output_0.bin"), 3 + 257);
    let mut buffer = BufferPool::new(32);
    for i in 0..count {
        assert_eq!(
            Some(i + 7),
            search_b_tree_sst(&disk, "./big/output_0.bin", i * 2, &mut buffer)
        );
    }
    assert_eq!(
        None,
        search_b_tree_sst(&disk, "./big/output_0.bin", 1, &mut buffer)
    );
    assert_eq!(
        None,
        search_b_tree_sst(&disk, "./big/output_0.bin", -5, &mut buffer)
    );
    assert_eq!(
        None,
        search_b_tree_sst(&disk, "./big/output_0.bin", count * 2, &mut buffer)
    );
    let mut found: HashMap<i64, i64> = HashMap::new();
    scan_b_tree_ssts(&disk, "big", 511, 70001, &mut found, &mut buffer);
    assert_eq!(found.len(), (70000 - 512) / 2 + 1);
    for (k, v) in &found {
        assert_eq!(*v, k / 2 + 7);
        assert!(511 <= *k && *k <= 70001);
    }
}

#[test]
fn newer_trees_win() {
    let mut disk = Disk::new();
    convert_sorted_arr_to_b_tree_arr_and_serialize(
        &mut disk,
        "./w/output_0.bin",
        &vec![(1, 10), (2, 20), (3, 30)],
    );
    convert_sorted_arr_to_b_tree_arr_and_serialize(
        &mut disk,
        "./w/output_1.bin",
        &vec![(2, 21), (4, 41)],
    );
    let mut buffer = BufferPool::new(4);
    assert_eq!(Some(10), get_b_tree_ssts(&disk, "w", 1, &mut buffer));
    assert_eq!(Some(21), get_b_tree_ssts(&disk, "w", 2, &mut buffer));
    assert_eq!(Some(41), get_b_tree_ssts(&disk, "w", 4, &mut buffer));
    assert_eq!(None, get_b_tree_ssts(&disk, "w", 5, &mut buffer));
    let mut found: HashMap<i64, i64> = HashMap::new();
    scan_b_tree_ssts(&disk, "w", 0, 100, &mut found, &mut buffer);
    assert_eq!(found.len(), 4);
    assert_eq!(found.get(&2), Some(&21));
}

#[test]
fn the_last_entry_at_most_the_key_is_picked() {
    let entries: Vec<(i64, i64)> = vec![(10, 1), (10, 2), (20, 3), (30, 4)];
    assert_eq!(None, binary_search_internal_se_key(&entries, 5));
    assert_eq!(Some(1), binary_search_internal_se_key(&entries, 10));
    assert_eq!(Some(1), binary_search_internal_se_key(&entries, 19));
    assert_eq!(Some(2), binary_search_internal_se_key(&entries, 20));
    assert_eq!(Some(2), binary_search_internal_se_key(&entries, 25));
    assert_eq!(Some(3), binary_search_internal_se_key(&entries, 30));
    assert_eq!(Some(3), binary_search_internal_se_key(&entries, 1000));
    assert_eq!(None, binary_search_internal_se_key(&vec![(1, 1)], 7));
    assert_eq!(None, binary_search_internal_se_key(&vec![], 7));
}
