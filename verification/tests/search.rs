use kv::search::{binary_search_array, binary_search_array_start_index};

#[test]
fn test_get_from_kv_arr_binary_search() {
    let mut kv_vec: Vec<(i64, i64)> = Vec::new();
    for i in 0..100 {
        kv_vec.push((i, i * 2));
    }

    for key in 0..100 {
        assert_eq!(Some(key * 2), binary_search_array(&kv_vec, key));
    }
    assert_eq!(None, binary_search_array(&kv_vec, 100));
}

#[test]
fn test_scan_get_start_index_from_kv_arr_binary_search() {
    let mut kv_vec: Vec<(i64, i64)> = Vec::new();
    for i in (6..300).step_by(3) {
        kv_vec.push((i, i));
    }

    for key in 6..298 {
        assert_eq!(
            Some((3 + (key - 6) - 1) / 3),
            binary_search_array_start_index(&kv_vec, key as i64)
        );
    }

    assert_eq!(None, binary_search_array_start_index(&kv_vec, 300));
}
