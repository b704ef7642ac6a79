use kv::page::{pad_page_bytes, PAGE_SIZE};

#[test]
fn test_pad_page_bytes() {
    let mut bytes: Vec<u8> = Vec::new();

    pad_page_bytes(&mut bytes);
    assert_eq!(bytes.len(), 0);

    for i in 0..16 {
        bytes.push(i);
    }

    pad_page_bytes(&mut bytes);
    assert_eq!(bytes.len(), PAGE_SIZE);

    for i in 0..16 {
        bytes.push(i);
    }

    pad_page_bytes(&mut bytes);
    assert_eq!(bytes.len(), 2 * PAGE_SIZE);
}
