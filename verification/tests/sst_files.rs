use kv::disk::Disk;
use kv::page::PAGE_SIZE;
use kv::sst::{
    binary_search_file, binary_search_sst_start_index, deserialize_page, get_sst_names,
    get_value_ssts, scan_file, scan_ssts, serialize_kv_to_file,
};
use std::collections::HashMap;

#[test]
fn test_serialize_deserialize() {
    let folder_path: &str = "./serdeTestDB/";
    let file_path_string: String = format!("{}output_1.bin", folder_path);
    let file_path: &str = file_path_string.as_str();
    let mut disk = Disk::new();

    let mut kv_vec: Vec<(i64, i64)> = Vec::new();
    let mut kv_expected1: Vec<(i64, i64)> = Vec::new();
    let mut kv_expected2: Vec<(i64, i64)> = Vec::new();
    let mut kv_expected3: Vec<(i64, i64)> = Vec::new();
    for i in 0..((PAGE_SIZE / 16) * 3) as i64 {
        kv_vec.push((i, i * 2));
        if i < (PAGE_SIZE / 16) as i64 {
            kv_expected1.push((i, i * 2));
        } else if i < ((PAGE_SIZE / 16) * 2) as i64 {
            kv_expected2.push((i, i * 2));
        } else {
            kv_expected3.push((i, i * 2));
        }
    }
    serialize_kv_to_file(&mut disk, file_path, &kv_vec);

    assert_eq!(kv_expected1, deserialize_page(&disk, file_path, 0));
    assert_eq!(kv_expected2, deserialize_page(&disk, file_path, PAGE_SIZE));
    assert_eq!(kv_expected3, deserialize_page(&disk, file_path, PAGE_SIZE * 2));
}

#[test]
fn test_get_db_sst_names() {
    let db_name: String = "sstNameTestDB".to_string();
    let folder_path_string: String = format!("./{}/", db_name);
    let folder_path: &str = folder_path_string.as_str();
    let mut disk = Disk::new();

    let mut expected: Vec<String> = vec![];

    for i in 0..10 {
        let file_name: String = format!("output_{}.bin", i);
        disk.append(&format!("{}{}", folder_path, file_name), Vec::new());
        expected.insert(0, format!("{}{}", folder_path, file_name));
    }
    disk.append("./otherDB/output_0.bin", Vec::new());

    let names: Vec<String> = get_sst_names(&disk, &db_name);
    assert_eq!(names, expected);
}

#[test]
fn test_get_from_sst_binary_search() {
    let folder_path: &str = "./getBinarySearchTestDB1/";
    let file_path_string: String = format!("{}output_1.bin", folder_path);
    let file_path: &str = file_path_string.as_str();
    let mut disk = Disk::new();

    let mut kv_vec: Vec<(i64, i64)> = Vec::new();
    for i in 0..((PAGE_SIZE / 16) * 5) as i64 {
        kv_vec.push((i, i * 2));
    }
    serialize_kv_to_file(&mut disk, file_path, &kv_vec);

    let file_size: usize = disk.file_len(file_path).expect("Metadata call failed!") / PAGE_SIZE;

    for key in 0..((PAGE_SIZE / 16) * 5) as i64 {
        assert_eq!(
            Some(key * 2),
            binary_search_file(&disk, file_path, file_size, key)
        );
    }

    assert_eq!(
        None,
        binary_search_file(&disk, file_path, file_size, ((PAGE_SIZE / 16) * 5) as i64)
    );
    assert_eq!(None, binary_search_file(&disk, file_path, file_size, -1));
}

fn five_runs(disk: &mut Disk, db_path: &str, pages: i64) {
    for i in 0..5 {
        let file_path: String = format!("{}output_{}.bin", db_path, i);
        let mut kv_vec: Vec<(i64, i64)> = Vec::new();
        for j in i * pages..(i + 1) * pages {
            kv_vec.push((j, j * 2));
        }
        if i < 4 {
            let mut key: i64 = ((i + 1) * pages) + 10;
            kv_vec.push((key, key * 3));
            key += 100;
            kv_vec.push((key, key * 3));
        }
        serialize_kv_to_file(disk, &file_path, &kv_vec);
    }
}

#[test]
fn test_get_from_ssts_binary_search() {
    let db_name: String = "getBinarySearchTestDB2".to_string();
    let db_path: String = format!("./{}/", &db_name);
    let mut disk = Disk::new();

    let pages: i64 = ((PAGE_SIZE / 16) * 5) as i64;

    five_runs(&mut disk, &db_path, pages);

    for i in 0..5 {
        for j in i * pages..(i + 1) * pages {
            assert_eq!(Some(j * 2), get_value_ssts(&disk, &db_name, j));
        }
    }

    assert_eq!(
        None,
        get_value_ssts(&disk, &db_name, (((PAGE_SIZE / 16) * 5) * 5) as i64)
    );
}

#[test]
fn test_scan_get_start_idx_from_sst_binary_search() {
    let folder_path: String = "./scanBinarySearchTestDB1/".to_string();
    let file_path: String = format!("{}output_1.bin", &folder_path);
    let mut disk = Disk::new();

    let mut kv_vec: Vec<(i64, i64)> = Vec::new();
    for i in 10..(((PAGE_SIZE / 16) * 5) + 10) as i64 {
        kv_vec.push((i, i));
    }
    serialize_kv_to_file(&mut disk, &file_path, &kv_vec);

    let total_pages: usize = disk.file_len(&file_path).expect("Metadata call failed!") / PAGE_SIZE;

    assert_eq!(5, total_pages);

    let mut start: i64 = 20;
    let mut end: i64 = 40;
    assert_eq!(
        (Some(0), Some(10)),
        binary_search_sst_start_index(&disk, &file_path, &total_pages, start, end)
    );

    start = 20 + ((PAGE_SIZE / 16) * 2) as i64;
    end = 40 + ((PAGE_SIZE / 16) * 4) as i64;
    assert_eq!(
        (Some(2), Some(10)),
        binary_search_sst_start_index(&disk, &file_path, &total_pages, start, end)
    );

    start = 2;
    end = 40;
    assert_eq!(
        (Some(0), Some(0)),
        binary_search_sst_start_index(&disk, &file_path, &total_pages, start, end)
    );

    start = 1;
    end = 5;
    assert_eq!(
        (None, None),
        binary_search_sst_start_index(&disk, &file_path, &total_pages, start, end)
    );
}

#[test]
fn test_scan_from_sst_binary_search() {
    let folder_path: String = format!("./scanBinarySearchTestDB2/");
    let file_path: String = format!("{}output_1.bin", &folder_path);
    let mut disk = Disk::new();

    let start1: i64 = (((PAGE_SIZE / 16) * 2) + 10) as i64;
    let end1: i64 = (((PAGE_SIZE / 16) * 4) + 20) as i64;
    let start2: i64 = (((PAGE_SIZE / 16) * 4) + 10) as i64;
    let end2: i64 = (((PAGE_SIZE / 16) * 7) + 20) as i64;
    let start3: i64 = ((PAGE_SIZE / 16) * 2) as i64;
    let end3: i64 = (((PAGE_SIZE / 16) * 3) - 1) as i64;

    let mut kv_vec: Vec<(i64, i64)> = Vec::new();
    let mut kv_expected1: HashMap<i64, i64> = HashMap::new();
    let mut kv_expected2: HashMap<i64, i64> = HashMap::new();
    for i in 0..((PAGE_SIZE / 16) * 2) as i64 {
        if i % 3 == 0 {
            kv_vec.push((i, i * 2));
        }
        kv_vec.push((i, i * 2));
        if start1 <= i && i <= end1 {
            kv_expected1.insert(i, i * 2);
        }
        if start2 <= i && i <= end2 {
            kv_expected2.insert(i, i * 2);
        }
    }
    for i in ((PAGE_SIZE / 16) * 3) as i64..((PAGE_SIZE / 16) * 6) as i64 {
        if i % 3 == 0 {
            kv_vec.push((i, i * 2));
        }
        kv_vec.push((i, i * 2));
        if start1 <= i && i <= end1 {
            kv_expected1.insert(i, i * 2);
        }
        if start2 <= i && i <= end2 {
            kv_expected2.insert(i, i * 2);
        }
    }
    serialize_kv_to_file(&mut disk, &file_path, &kv_vec);

    let total_pages: usize = disk.file_len(&file_path).expect("Metadata call failed!") / PAGE_SIZE;

    let mut kv_ret1: HashMap<i64, i64> = HashMap::new();
    if let (Some(page_idx), Some(arr_idx)) =
        binary_search_sst_start_index(&disk, &file_path, &total_pages, start1, end1)
    {
        scan_file(
            &disk,
            &file_path,
            total_pages,
            page_idx,
            arr_idx,
            end1,
            &mut kv_ret1,
        );
    } else {
        assert!(false, "Not supposed to get here!");
    }

    assert_eq!(
        kv_expected1.len(),
        kv_ret1.len(),
        "Expected: {}. Got: {}.",
        kv_expected1.len(),
        kv_ret1.len()
    );
    for (key, value) in kv_expected1 {
        if let Some(val) = kv_ret1.get(&key) {
            if *val != value {
                assert!(false);
            }
        } else {
            assert!(false);
        }
    }

    let mut kv_ret2: HashMap<i64, i64> = HashMap::new();
    if let (Some(page_idx), Some(arr_idx)) =
        binary_search_sst_start_index(&disk, &file_path, &total_pages, start2, end2)
    {
        scan_file(
            &disk,
            &file_path,
            total_pages,
            page_idx,
            arr_idx,
            end2,
            &mut kv_ret2,
        );
    } else {
        assert!(false, "Not supposed to get here!");
    }

    assert_eq!(
        kv_expected2.len(),
        kv_ret2.len(),
        "Expected: {}. Got: {}.",
        kv_expected2.len(),
        kv_ret2.len()
    );
    for (key, value) in kv_expected2 {
        if let Some(val) = kv_ret2.get(&key) {
            if *val != value {
                assert!(false);
            }
        } else {
            assert!(false);
        }
    }

    let mut kv_ret3: HashMap<i64, i64> = HashMap::new();
    if let (Some(page_idx), Some(arr_idx)) =
        binary_search_sst_start_index(&disk, &file_path, &total_pages, start3, end3)
    {
        println!("{}, {}", page_idx, arr_idx);
        scan_file(
            &disk,
            &file_path,
            total_pages,
            page_idx,
            arr_idx,
            end3,
            &mut kv_ret3,
        );
        assert!(kv_ret3.is_empty());
    }
}

#[test]
fn test_scan_from_ssts_binary_search() {
    let db_name: String = "scanBinarySearchTestDB3".to_string();
    let db_path: String = format!("./{}/", db_name);
    let mut disk = Disk::new();

    let pages: i64 = ((PAGE_SIZE / 16) * 5) as i64;

    let start1: i64 = (((PAGE_SIZE / 16) * 2) + 10) as i64;
    let end1: i64 = (((PAGE_SIZE / 16) * 20) + 20) as i64;
    let start2: i64 = 0;
    let end2: i64 = (pages * 5) - 1;
    let start3: i64 = -10;
    let end3: i64 = -1;

    let mut kv_expected1: HashMap<i64, i64> = HashMap::new();
    let mut kv_expected2: HashMap<i64, i64> = HashMap::new();
    for i in 0..5 {
        for j in i * pages..(i + 1) * pages {
            if start1 <= j && j <= end1 {
                kv_expected1.insert(j, j * 2);
            }
            kv_expected2.insert(j, j * 2);
        }
    }
    five_runs(&mut disk, &db_path, pages);

    let mut kv_ret1: HashMap<i64, i64> = HashMap::new();
    scan_ssts(&disk, &db_name, start1, end1, &mut kv_ret1);
    assert_eq!(
        kv_expected1.len(),
        kv_ret1.len(),
        "Expected: {}. Got: {}.",
        kv_expected1.len(),
        kv_ret1.len()
    );
    for (key, value) in kv_expected1 {
        if let Some(val) = kv_ret1.get(&key) {
            if *val != value {
                assert!(false);
            }
        } else {
            assert!(false);
        }
    }

    let mut kv_ret2: HashMap<i64, i64> = HashMap::new();
    scan_ssts(&disk, &db_name, start2, end2, &mut kv_ret2);
    assert_eq!(
        kv_expected2.len(),
        kv_ret2.len(),
        "Expected: {}. Got: {}.",
        kv_expected2.len(),
        kv_ret2.len()
    );
    for (key, value) in kv_expected2 {
        if let Some(val) = kv_ret2.get(&key) {
            if *val != value {
                assert!(false);
            }
        } else {
            assert!(false);
        }
    }

    let mut kv_ret3: HashMap<i64, i64> = HashMap::new();
    scan_ssts(&disk, &db_name, start3, end3, &mut kv_ret3);
    assert!(kv_ret3.is_empty());
}

#[test]
fn page_padding() {
    let mut disk = Disk::new();
    serialize_kv_to_file(&mut disk, "./padDB/output_0.bin", &vec![(1, 2), (3, 4), (5, 6)]);
    let bytes = disk.read_file("./padDB/output_0.bin").unwrap();
    assert_eq!(bytes.len(), 4096);
    let head: Vec<u8> = vec![
        0, 0, 0, 0, 0, 0, 0, 1, 0, 0, 0, 0, 0, 0, 0, 2, 0, 0, 0, 0, 0, 0, 0, 3, 0, 0, 0, 0, 0, 0,
        0, 4, 0, 0, 0, 0, 0, 0, 0, 5, 0, 0, 0, 0, 0, 0, 0, 6,
    ];
    assert_eq!(&bytes[..48], &head[..]);
    let pattern: [u8; 4] = [0xde, 0xad, 0xbe, 0xef];
    for i in 48..4096 {
        assert_eq!(bytes[i], pattern[i % 4]);
    }
    assert_eq!(
        deserialize_page(&disk, "./padDB/output_0.bin", 0),
        vec![(1, 2), (3, 4), (5, 6)]
    );
}

#[test]
fn negative_numbers_are_written_in_two_s_complement() {
    let mut disk = Disk::new();
    serialize_kv_to_file(&mut disk, "f", &vec![(-1, i64::MIN), (i64::MAX, -2)]);
    let bytes = disk.read_file("f").unwrap();
    assert_eq!(&bytes[..8], &[0xff; 8]);
    assert_eq!(&bytes[8..16], &[0x80, 0, 0, 0, 0, 0, 0, 0]);
    assert_eq!(&bytes[16..24], &[0x7f, 0xff, 0xff, 0xff, 0xff, 0xff, 0xff, 0xff]);
    assert_eq!(&bytes[24..32], &[0xff, 0xff, 0xff, 0xff, 0xff, 0xff, 0xff, 0xfe]);
    assert_eq!(
        deserialize_page(&disk, "f", 0),
        vec![(-1, i64::MIN), (i64::MAX, -2)]
    );
}

#[test]
fn successive_writes_append_pages() {
    let mut disk = Disk::new();
    serialize_kv_to_file(&mut disk, "f", &vec![(1, 1)]);
    serialize_kv_to_file(&mut disk, "f", &vec![(2, 2), (3, 3)]);
    assert_eq!(disk.file_len("f"), Some(8192));
    assert_eq!(disk.page_count("f"), 2);
    assert_eq!(deserialize_page(&disk, "f", 0), vec![(1, 1)]);
    assert_eq!(deserialize_page(&disk, "f", 4096), vec![(2, 2), (3, 3)]);
    assert!(disk.remove("f"));
    assert!(!disk.contains("f"));
    assert!(!disk.remove("f"));
}

#[test]
fn a_trailing_padding_record_is_read_as_padding() {
    let pad: i64 = 0xdeadbeefdeadbeefu64 as i64;
    let mut disk = Disk::new();
    serialize_kv_to_file(&mut disk, "f", &vec![(pad, pad), (1, 2), (pad, pad)]);
    assert_eq!(deserialize_page(&disk, "f", 0), vec![(pad, pad), (1, 2)]);
}

#[test]
fn scan_starts_after_a_gap_between_pages() {
    let mut disk = Disk::new();
    let mut records: Vec<(i64, i64)> = Vec::new();
    for i in 0..256 {
        records.push((i, i));
    }
    for i in 1000..1256 {
        records.push((i, i));
    }
    serialize_kv_to_file(&mut disk, "./gap/output_0.bin", &records);
    let total: usize = 2;
    assert_eq!(
        (Some(1), Some(0)),
        binary_search_sst_start_index(&disk, "./gap/output_0.bin", &total, 500, 1002)
    );
    let mut found: HashMap<i64, i64> = HashMap::new();
    scan_ssts(&disk, "gap", 500, 1002, &mut found);
    assert_eq!(found.len(), 3);
    assert_eq!(found.get(&1000), Some(&1000));
    assert_eq!(found.get(&1002), Some(&1002));
    assert_eq!(
        (None, None),
        binary_search_sst_start_index(&disk, "./gap/output_0.bin", &total, 2000, 3000)
    );
}

#[test]
fn scan_keeps_what_the_map_holds() {
    let mut disk = Disk::new();
    serialize_kv_to_file(&mut disk, "f", &vec![(1, 10), (2, 20), (3, 30), (4, 40)]);
    let mut found: HashMap<i64, i64> = HashMap::new();
    found.insert(2, -2);
    scan_file(&disk, "f", 1, 0, 1, 3, &mut found);
    assert_eq!(found.len(), 2);
    assert_eq!(found.get(&2), Some(&-2));
    assert_eq!(found.get(&3), Some(&30));
}
