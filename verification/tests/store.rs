use commitlog::{LogError, Store};

#[test]
fn store_append_returns_bytes_written_and_position() {
    let mut store = Store::new(Vec::new(), "0.store".to_string());
    assert_eq!(store.append(b"hello"), Ok((13, 0)));
    assert_eq!(store.append(b""), Ok((8, 13)));
    assert_eq!(store.append(b"abc"), Ok((11, 21)));
    assert_eq!(store.size(), 32);
}

#[test]
fn store_frame_is_big_endian_length_then_payload() {
    let mut store = Store::new(Vec::new(), "0.store".to_string());
    store.append(b"hello").unwrap();
    let image = store.close().unwrap();
    assert_eq!(image, vec![0, 0, 0, 0, 0, 0, 0, 5, b'h', b'e', b'l', b'l', b'o']);
}

#[test]
fn store_length_prefix_keeps_high_bytes_first() {
    let payload = vec![7u8; 0x0102];
    let mut store = Store::new(Vec::new(), "0.store".to_string());
    store.append(&payload).unwrap();
    let image = store.close().unwrap();
    assert_eq!(&image[..8], &[0, 0, 0, 0, 0, 0, 1, 2]);
    assert_eq!(image.len(), 8 + 0x0102);
    assert_eq!(store.read(0), Ok(payload));
}

#[test]
fn store_read_returns_what_was_appended() {
    let mut store = Store::new(Vec::new(), "0.store".to_string());
    let (_, first) = store.append(b"hello  hasldkfhjalsdk  ").unwrap();
    let (_, second) = store.append(b"hello").unwrap();
    assert_eq!(store.read(first), Ok(b"hello  hasldkfhjalsdk  ".to_vec()));
    assert_eq!(store.read(second), Ok(b"hello".to_vec()));
    assert_eq!(store.read(first), Ok(b"hello  hasldkfhjalsdk  ".to_vec()));
}

#[test]
fn store_read_of_empty_payload() {
    let mut store = Store::new(Vec::new(), "0.store".to_string());
    let (_, pos) = store.append(b"").unwrap();
    assert_eq!(store.read(pos), Ok(Vec::new()));
}

#[test]
fn store_read_past_the_end_is_unexpected_eof() {
    let mut store = Store::new(Vec::new(), "0.store".to_string());
    store.append(b"hello").unwrap();
    assert_eq!(store.read(13), Err(LogError::UnexpectedEof));
    assert_eq!(store.read(6), Err(LogError::UnexpectedEof));
    assert_eq!(store.read(u64::MAX), Err(LogError::UnexpectedEof));
}

#[test]
fn store_read_of_cut_payload_is_unexpected_eof() {
    let image = vec![0, 0, 0, 0, 0, 0, 0, 5, b'h', b'e', b'l'];
    let store = Store::new(image, "0.store".to_string());
    assert_eq!(store.read(0), Err(LogError::UnexpectedEof));
}

#[test]
fn store_read_of_empty_store_is_unexpected_eof() {
    let store = Store::new(Vec::new(), "0.store".to_string());
    assert_eq!(store.read(0), Err(LogError::UnexpectedEof));
}

#[test]
fn store_read_inside_a_frame_reads_what_stands_there() {
    let mut store = Store::new(Vec::new(), "0.store".to_string());
    store.append(&[0, 0, 0, 0, 0, 0, 0, 1, 9]).unwrap();
    assert_eq!(store.read(8), Ok(vec![9]));
}

#[test]
fn store_opens_over_an_image() {
    let image = vec![0, 0, 0, 0, 0, 0, 0, 2, 10, 20];
    let mut store = Store::new(image.clone(), "5.store".to_string());
    assert_eq!(store.size(), 10);
    assert_eq!(store.read(0), Ok(vec![10, 20]));
    assert_eq!(store.append(b"x"), Ok((9, 10)));
    assert_eq!(store.close().unwrap().len(), 19);
}

#[test]
fn store_close_then_open_again_is_the_same_store() {
    let mut store = Store::new(Vec::new(), "0.store".to_string());
    let (_, a) = store.append(b"first").unwrap();
    let (_, b) = store.append(b"second").unwrap();
    let image = store.close().unwrap();
    let again = Store::new(image, "0.store".to_string());
    assert_eq!(again.size(), store.size());
    assert_eq!(again.read(a), Ok(b"first".to_vec()));
    assert_eq!(again.read(b), Ok(b"second".to_vec()));
}

#[test]
fn store_close_leaves_the_store_usable() {
    let mut store = Store::new(Vec::new(), "0.store".to_string());
    store.append(b"one").unwrap();
    store.close().unwrap();
    assert_eq!(store.append(b"two"), Ok((11, 11)));
    assert_eq!(store.read(0), Ok(b"one".to_vec()));
}

#[test]
fn store_name_is_the_path_given() {
    let store = Store::new(Vec::new(), "temp_file.bin".to_string());
    assert_eq!(store.name(), "temp_file.bin");
}

#[test]
fn store_reat_at_fills_the_buffer() {
    let mut store = Store::new(Vec::new(), "0.store".to_string());
    store.append(b"hello").unwrap();
    let mut buf = vec![0u8; 5];
    assert_eq!(store.reat_at(&mut buf, 8), Ok(5));
    assert_eq!(buf, b"hello".to_vec());
    let mut prefix = vec![0u8; 8];
    assert_eq!(store.reat_at(&mut prefix, 0), Ok(8));
    assert_eq!(prefix, vec![0, 0, 0, 0, 0, 0, 0, 5]);
}

#[test]
fn store_reat_at_past_the_end_is_unexpected_eof() {
    let mut store = Store::new(Vec::new(), "0.store".to_string());
    store.append(b"hello").unwrap();
    let mut buf = vec![1u8; 5];
    assert_eq!(store.reat_at(&mut buf, 9), Err(LogError::UnexpectedEof));
    assert_eq!(buf, vec![1u8; 5]);
    assert_eq!(store.reat_at(&mut buf, 14), Err(LogError::UnexpectedEof));
    let mut none: Vec<u8> = Vec::new();
    assert_eq!(store.reat_at(&mut none, 13), Ok(0));
}

#[test]
fn store_clear_drops_every_frame() {
    let mut store = Store::new(Vec::new(), "0.store".to_string());
    store.append(b"hello").unwrap();
    store.clear();
    assert_eq!(store.size(), 0);
    assert_eq!(store.read(0), Err(LogError::UnexpectedEof));
    assert_eq!(store.name(), "0.store");
}

#[test]
fn store_image_is_the_bytes_held() {
    let mut store = Store::new(vec![1, 2, 3], "0.store".to_string());
    assert_eq!(store.image(), vec![1, 2, 3]);
    store.append(b"z").unwrap();
    assert_eq!(store.image(), vec![1, 2, 3, 0, 0, 0, 0, 0, 0, 0, 1, b'z']);
}
