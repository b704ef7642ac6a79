use kv::buffer::{BufferKey, BufferPool};
use std::collections::VecDeque;

fn page_of(i: usize) -> Vec<(i64, i64)> {
    let mut page: Vec<(i64, i64)> = Vec::new();
    for _ in 0..=10 as usize {
        let num1 = i;
        let num2 = i;
        page.push((num1 as i64, num2 as i64));
    }
    page
}

fn take_chain_pages(buffer: &BufferPool, buf_size: usize, expected: &mut Vec<Vec<(i64, i64)>>) {
    for i in 0..=(buf_size - 1) as usize {
        for page in buffer.bucket_pages(i) {
            if let Some(idx) = expected.iter().position(|x| *x == page) {
                expected.remove(idx);
            } else {
                assert!(false);
            }
        }
    }
}

#[test]
fn test_buffer_inserts_simple() {
    let buf_size = 5;
    let num_inserts = 5;
    let mut expected: Vec<Vec<(i64, i64)>> = Vec::new();
    let mut buffer: BufferPool = BufferPool::new(buf_size);

    for i in 1..=num_inserts as usize {
        let page = page_of(i);
        expected.push(page.clone());
        buffer.insert(BufferKey::new(format!("sst{}", i), i * 2), page);
    }

    assert_eq!(buffer.curr_size(), 5);

    take_chain_pages(&buffer, buf_size, &mut expected);
    assert!(expected.is_empty());
}

#[test]
fn test_buffer_inserts_overflow() {
    let buf_size = 5;
    let num_inserts = 7;
    let mut expected: Vec<Vec<(i64, i64)>> = Vec::new();
    let mut overflow: Vec<Vec<(i64, i64)>> = Vec::new();
    let mut buffer: BufferPool = BufferPool::new(buf_size);

    for i in 1..=num_inserts {
        let page = page_of(i);
        if i <= num_inserts - buf_size {
            overflow.push(page.clone());
        }
        expected.push(page.clone());
        buffer.insert(BufferKey::new(format!("sst{}", i), i * 2), page);
    }

    assert_eq!(buffer.curr_size(), buf_size);

    take_chain_pages(&buffer, buf_size, &mut expected);

    assert_eq!(expected.len(), (num_inserts - buf_size) as usize);

    for _ in 1..=num_inserts - buf_size {
        assert_eq!(expected.pop(), overflow.pop());
    }
}

#[test]
fn test_buffer_insert_search_simple() {
    let buf_size = 5;
    let num_inserts = 5;
    let mut keys: Vec<BufferKey> = Vec::new();
    let mut expected: Vec<Vec<(i64, i64)>> = Vec::new();
    let mut buffer: BufferPool = BufferPool::new(buf_size);

    for i in 1..=num_inserts as usize {
        let page = page_of(i);
        keys.push(BufferKey::new(format!("sst{}", i), i * 2));
        expected.push(page.clone());
        buffer.insert(BufferKey::new(format!("sst{}", i), i * 2), page);
    }

    assert_eq!(buffer.curr_size(), buf_size);

    for i in 0..=(num_inserts - 1) {
        let key: &BufferKey = &keys[i];
        if let Some(page) = buffer.find_buffer_page(key) {
            assert_eq!(page, expected[i]);
        } else {
            assert!(false);
        }
    }

    assert_eq!(
        None,
        buffer.find_buffer_page(&BufferKey::new("Wrong_Name".to_string(), 360))
    );
}

#[test]
fn test_buffer_insert_search_overflow() {
    let buf_size = 5;
    let num_inserts = 7;
    let mut keys: Vec<BufferKey> = Vec::new();
    let mut expected: Vec<Vec<(i64, i64)>> = Vec::new();
    let mut buffer: BufferPool = BufferPool::new(buf_size);

    for i in 1..=num_inserts as usize {
        let page = page_of(i);
        keys.push(BufferKey::new(format!("sst{}", i), i * 2));
        if i > num_inserts - buf_size {
            expected.push(page.clone());
        }
        buffer.insert(BufferKey::new(format!("sst{}", i), i * 2), page);
    }

    assert_eq!(buffer.curr_size(), buf_size);

    for i in 0..=num_inserts - 1 {
        let key: &BufferKey = &keys[i as usize];
        let ret = buffer.find_buffer_page(key);
        if i > num_inserts - buf_size - 1 {
            assert!(ret.is_some());
            assert_eq!(
                ret.unwrap(),
                expected[(i - (num_inserts - buf_size)) as usize]
            );
        } else {
            assert_eq!(ret, None);
        }
    }
}

#[test]
fn test_buffer_search_change() {
    let buf_size = 5;
    let num_inserts = 7;
    let num_search = buf_size / 2;
    let mut keys: Vec<BufferKey> = Vec::new();
    let mut keys_expected: VecDeque<BufferKey> = VecDeque::new();
    let mut pages: Vec<Vec<(i64, i64)>> = Vec::new();
    let mut buffer: BufferPool = BufferPool::new(buf_size);

    for i in 1..=buf_size as usize {
        let page = page_of(i);
        keys.push(BufferKey::new(format!("sst{}", i), i * 2));
        keys_expected.push_back(BufferKey::new(format!("sst{}", i), i * 2));
        pages.push(page.clone());
        buffer.insert(BufferKey::new(format!("sst{}", i), i * 2), page);
    }

    assert_eq!(buffer.curr_size(), buf_size);

    for i in 0..=(num_search - 1) as usize {
        let key: &BufferKey = &keys[i];
        let ret: Option<Vec<(i64, i64)>> = buffer.find_buffer_page(key);
        assert!(ret.is_some());
        assert_eq!(ret.unwrap(), pages[i]);
        let x: Option<BufferKey> = keys_expected.pop_front();
        keys_expected.push_back(x.unwrap())
    }

    assert_eq!(buffer.curr_size(), buf_size);

    for i in buf_size + 1..=num_inserts as usize {
        let page = page_of(i);
        keys.push(BufferKey::new(format!("sst{}", i), i * 2));
        pages.push(page.clone());
        keys_expected.push_back(BufferKey::new(format!("sst{}", i), i * 2));
        keys_expected.pop_front();
        buffer.insert(BufferKey::new(format!("sst{}", i), i * 2), page);
    }

    assert_eq!(buffer.curr_size(), buf_size);
    assert_eq!(keys_expected.len(), buf_size as usize);

    for i in 0..=(num_inserts - 1) as usize {
        let key: &BufferKey = &keys[i];
        let ret: Option<Vec<(i64, i64)>> = buffer.find_buffer_page(key);
        if keys_expected.contains(key) {
            assert!(ret.is_some());
            assert_eq!(ret.clone().unwrap(), pages[i]);
        } else {
            assert_eq!(ret, None);
        }
    }
}
