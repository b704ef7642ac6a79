use kv::disk::{starts_with, Disk};
use kv::path::{db_prefix, internal_path, leaf_path, page_key, sst_path};

#[test]
fn run_paths() {
    assert_eq!(db_prefix("db"), "./db/");
    assert_eq!(sst_path("db", 0), "./db/output_0.bin");
    assert_eq!(sst_path("db", 9), "./db/output_9.bin");
    assert_eq!(sst_path("db", 10), "./db/output_10.bin");
    assert_eq!(sst_path("my db", 4294967295), "./my db/output_4294967295.bin");
    assert_eq!(leaf_path("db", 1, 7), "db/output_leaf_1_7.bin");
    assert_eq!(leaf_path("db", 12, 4096), "db/output_leaf_12_4096.bin");
    assert_eq!(internal_path("db", 3, 100), "db/output_internal_3_100.bin");
    assert_eq!(page_key("sst1", 8192), "sst1 8192");
    assert_eq!(page_key("", 0), " 0");
}

#[test]
fn prefixes() {
    assert!(starts_with("./db/output_0.bin", "./db/"));
    assert!(starts_with("abc", ""));
    assert!(starts_with("abc", "abc"));
    assert!(!starts_with("ab", "abc"));
    assert!(!starts_with("./dc/output_0.bin", "./db/"));
    assert!(starts_with("grüße", "grü"));
}

#[test]
fn disk_counts_files_by_prefix() {
    let mut disk = Disk::new();
    assert_eq!(disk.count_prefix("./a/"), 0);
    disk.append("./a/x", vec![1, 2, 3]);
    disk.append("./a/y", vec![]);
    disk.append("./ab/x", vec![4]);
    disk.append("./a/x", vec![9]);
    assert_eq!(disk.count_prefix("./a/"), 2);
    assert_eq!(disk.count_prefix("./a"), 3);
    assert_eq!(disk.read_file("./a/x"), Some(vec![1, 2, 3, 9]));
    assert_eq!(disk.file_len("./a/y"), Some(0));
    assert_eq!(disk.file_len("./a/z"), None);
    assert_eq!(disk.paths(), vec!["./a/x", "./a/y", "./ab/x"]);
    assert!(disk.read_page("./a/x", 0).is_none());
}
