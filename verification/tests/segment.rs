use commitlog::{Config, LogError, Segment, SegmentConfig};

fn config(max_store_bytes: u64, max_index_bytes: u64) -> Config {
    Config { segment: SegmentConfig { max_store_bytes, max_index_bytes, initial_offset: 0 } }
}

fn fresh(base_offset: u64, max_store_bytes: u64, max_index_bytes: u64) -> Segment {
    Segment::new("dir", base_offset, config(max_store_bytes, max_index_bytes), &[], &[]).unwrap()
}

#[test]
fn segment_fresh_starts_at_its_base_offset() {
    let segment = fresh(16, 1024, 1024);
    assert_eq!(segment.base_offset(), 16);
    assert_eq!(segment.next_offset(), 16);
    assert!(!segment.is_maxed());
}

#[test]
fn segment_append_hands_out_consecutive_offsets() {
    let mut segment = fresh(16, 1024, 1024);
    assert_eq!(segment.append(b"a"), Ok(16));
    assert_eq!(segment.append(b"bb"), Ok(17));
    assert_eq!(segment.append(b"ccc"), Ok(18));
    assert_eq!(segment.next_offset(), 19);
    assert_eq!(segment.base_offset(), 16);
}

#[test]
fn segment_read_returns_what_was_appended() {
    let mut segment = fresh(16, 1024, 1024);
    segment.append(b"a").unwrap();
    segment.append(b"bb").unwrap();
    segment.append(b"").unwrap();
    assert_eq!(segment.read(16), Ok(b"a".to_vec()));
    assert_eq!(segment.read(17), Ok(b"bb".to_vec()));
    assert_eq!(segment.read(18), Ok(Vec::new()));
}

#[test]
fn segment_read_outside_its_range_is_not_found() {
    let mut segment = fresh(16, 1024, 1024);
    assert_eq!(segment.read(16), Err(LogError::NotFound));
    segment.append(b"a").unwrap();
    assert_eq!(segment.read(15), Err(LogError::NotFound));
    assert_eq!(segment.read(17), Err(LogError::NotFound));
    assert_eq!(segment.read(0), Err(LogError::NotFound));
    assert_eq!(segment.read(u64::MAX), Err(LogError::NotFound));
}

#[test]
fn segment_writes_frames_and_entries() {
    let mut segment = fresh(16, 1024, 1024);
    segment.append(b"a").unwrap();
    segment.append(b"bb").unwrap();
    let image = segment.close().unwrap();
    assert_eq!(image.base_offset, 16);
    assert_eq!(image.store, vec![0, 0, 0, 0, 0, 0, 0, 1, b'a', 0, 0, 0, 0, 0, 0, 0, 2, b'b', b'b']);
    assert_eq!(
        image.index,
        vec![0, 0, 0, 0, 0, 0, 0, 0, 0, 0, 0, 0, 1, 0, 0, 0, 9, 0, 0, 0, 0, 0, 0, 0]
    );
}

#[test]
fn segment_is_maxed_by_store_size_and_not_before() {
    let mut segment = fresh(0, 20, 1024);
    segment.append(b"123").unwrap();
    assert!(!segment.is_maxed());
    assert!(!segment.maxed_after(0));
    assert!(segment.maxed_after(1));
    segment.append(b"1").unwrap();
    assert!(segment.is_maxed());
}

#[test]
fn segment_is_maxed_by_index_size_and_not_before() {
    let mut segment = fresh(0, 1024, 36);
    segment.append(b"a").unwrap();
    assert!(!segment.is_maxed());
    segment.append(b"b").unwrap();
    assert!(!segment.is_maxed());
    assert!(segment.maxed_after(0));
    segment.append(b"c").unwrap();
    assert!(segment.is_maxed());
}

#[test]
fn segment_without_room_in_the_index_refuses_and_stays() {
    let mut segment = fresh(0, 1024, 30);
    assert_eq!(segment.append(b"a"), Ok(0));
    assert_eq!(segment.append(b"b"), Ok(1));
    assert!(!segment.is_maxed());
    assert!(!segment.has_room(1));
    assert_eq!(segment.append(b"c"), Err(LogError::CapacityExceeded));
    assert_eq!(segment.next_offset(), 2);
    let image = segment.close().unwrap();
    assert_eq!(image.store.len(), 18);
    assert_eq!(image.index.len(), 24);
}

#[test]
fn segment_at_the_last_offset_refuses() {
    let mut segment = fresh(u64::MAX, 1024, 1024);
    assert_eq!(segment.append(b"a"), Err(LogError::CapacityExceeded));
    let mut segment = fresh(u64::MAX - 1, 1024, 1024);
    assert_eq!(segment.append(b"a"), Ok(u64::MAX - 1));
    assert_eq!(segment.append(b"a"), Err(LogError::CapacityExceeded));
    assert_eq!(segment.next_offset(), u64::MAX);
}

#[test]
fn segment_recovers_its_next_offset_from_the_index() {
    let store = vec![0, 0, 0, 0, 0, 0, 0, 1, b'a', 0, 0, 0, 0, 0, 0, 0, 2, b'b', b'b'];
    let index = vec![0, 0, 0, 0, 0, 0, 0, 0, 0, 0, 0, 0, 1, 0, 0, 0, 9, 0, 0, 0, 0, 0, 0, 0];
    let mut segment = Segment::new("dir", 16, config(1024, 1024), &store, &index).unwrap();
    assert_eq!(segment.base_offset(), 16);
    assert_eq!(segment.next_offset(), 18);
    assert_eq!(segment.read(16), Ok(b"a".to_vec()));
    assert_eq!(segment.read(17), Ok(b"bb".to_vec()));
    assert_eq!(segment.append(b"ccc"), Ok(18));
    assert_eq!(segment.read(18), Ok(b"ccc".to_vec()));
}

#[test]
fn segment_close_then_open_again_is_the_same_segment() {
    let mut segment = fresh(7, 1024, 1024);
    segment.append(b"first").unwrap();
    segment.append(b"second").unwrap();
    let image = segment.close().unwrap();
    let again =
        Segment::new("dir", image.base_offset, config(1024, 1024), &image.store, &image.index)
            .unwrap();
    assert_eq!(again.base_offset(), 7);
    assert_eq!(again.next_offset(), 9);
    assert_eq!(again.read(7), Ok(b"first".to_vec()));
    assert_eq!(again.read(8), Ok(b"second".to_vec()));
    assert_eq!(again.is_maxed(), segment.is_maxed());
}

#[test]
fn segment_entry_out_of_place_sets_the_next_offset() {
    let store = vec![0, 0, 0, 0, 0, 0, 0, 1, b'a'];
    let index = vec![5, 0, 0, 0, 0, 0, 0, 0, 0, 0, 0, 0];
    let mut segment = Segment::new("dir", 10, config(1024, 1024), &store, &index).unwrap();
    assert_eq!(segment.base_offset(), 10);
    assert_eq!(segment.next_offset(), 16);
    assert_eq!(segment.read(10), Ok(b"a".to_vec()));
    assert_eq!(segment.read(11), Err(LogError::NotFound));
    assert_eq!(segment.read(15), Err(LogError::NotFound));
    assert_eq!(segment.read(16), Err(LogError::NotFound));
    assert_eq!(segment.append(b"b"), Ok(16));
    assert_eq!(segment.next_offset(), 17);
    let image = segment.close().unwrap();
    assert_eq!(&image.index[12..], &[6, 0, 0, 0, 9, 0, 0, 0, 0, 0, 0, 0]);
}

#[test]
fn segment_entry_that_points_at_no_frame_fails_when_it_is_read() {
    let store = vec![0, 0, 0, 0, 0, 0, 0, 1, b'a', 0, 0, 0, 0, 0, 0, 0, 2, b'b'];
    let index = vec![0, 0, 0, 0, 0, 0, 0, 0, 0, 0, 0, 0, 1, 0, 0, 0, 9, 0, 0, 0, 0, 0, 0, 0];
    let segment = Segment::new("dir", 0, config(1024, 1024), &store, &index).unwrap();
    assert_eq!(segment.next_offset(), 2);
    assert_eq!(segment.read(0), Ok(b"a".to_vec()));
    assert_eq!(segment.read(1), Err(LogError::UnexpectedEof));
    let beyond = vec![0, 0, 0, 0, 200, 0, 0, 0, 0, 0, 0, 0];
    let segment = Segment::new("dir", 0, config(1024, 1024), &store, &beyond).unwrap();
    assert_eq!(segment.read(0), Err(LogError::UnexpectedEof));
    let segment = Segment::new("dir", 0, config(1024, 1024), &[], &beyond).unwrap();
    assert_eq!(segment.next_offset(), 1);
    assert_eq!(segment.read(0), Err(LogError::UnexpectedEof));
    assert_eq!(segment.read(1), Err(LogError::NotFound));
}

#[test]
fn segment_index_image_that_does_not_fit_is_refused() {
    let r = Segment::new("dir", 0, config(1024, 12), &[], &[0u8; 24]);
    assert_eq!(r.unwrap_err(), LogError::CapacityExceeded);
    let r = Segment::new("dir", 0, config(1024, 1024), &[], &[0u8; 7]);
    assert_eq!(r.unwrap_err(), LogError::UnexpectedEof);
}

#[test]
fn segment_whose_offsets_run_out_is_refused() {
    let store = vec![0, 0, 0, 0, 0, 0, 0, 0];
    let index = vec![0, 0, 0, 0, 0, 0, 0, 0, 0, 0, 0, 0];
    let r = Segment::new("dir", u64::MAX, config(1024, 1024), &store, &index);
    assert_eq!(r.unwrap_err(), LogError::CapacityExceeded);
    let segment = Segment::new("dir", u64::MAX - 1, config(1024, 1024), &store, &index).unwrap();
    assert_eq!(segment.next_offset(), u64::MAX);
}

#[test]
fn segment_keeps_bytes_of_the_store_that_no_entry_points_at() {
    let store = vec![0, 0, 0, 0, 0, 0, 0, 1, b'a', 0xff, 0xff];
    let index = vec![0, 0, 0, 0, 0, 0, 0, 0, 0, 0, 0, 0];
    let mut segment = Segment::new("dir", 0, config(1024, 1024), &store, &index).unwrap();
    assert_eq!(segment.append(b"b"), Ok(1));
    assert_eq!(segment.read(0), Ok(b"a".to_vec()));
    assert_eq!(segment.read(1), Ok(b"b".to_vec()));
    assert_eq!(segment.close().unwrap().store.len(), 20);
}

#[test]
fn segment_remove_leaves_it_empty() {
    let mut segment = fresh(7, 1024, 1024);
    segment.append(b"first").unwrap();
    segment.append(b"second").unwrap();
    assert_eq!(segment.remove(), Ok(()));
    assert_eq!(segment.base_offset(), 7);
    assert_eq!(segment.next_offset(), 7);
    assert_eq!(segment.read(7), Err(LogError::NotFound));
    let image = segment.close().unwrap();
    assert!(image.store.is_empty());
    assert!(image.index.is_empty());
    assert_eq!(segment.append(b"again"), Ok(7));
}

#[test]
fn segment_stamp_gives_the_record_the_next_offset() {
    let mut segment = fresh(16, 1024, 1024);
    let record = commitlog::Record { value: b"payload".to_vec(), offset: 999 };
    let stamped = segment.stamp(record.clone());
    assert_eq!(stamped, commitlog::Record { value: b"payload".to_vec(), offset: 16 });
    assert_eq!(segment.append(&stamped.value), Ok(stamped.offset));
    assert_eq!(segment.stamp(record).offset, 17);
}

#[test]
fn segment_image_is_what_close_hands_back() {
    let mut segment = fresh(3, 1024, 1024);
    segment.append(b"abc").unwrap();
    let image = segment.image();
    let closed = segment.close().unwrap();
    assert_eq!(image.base_offset, closed.base_offset);
    assert_eq!(image.store, closed.store);
    assert_eq!(image.index, closed.index);
    assert_eq!(image.store.len(), 11);
    assert_eq!(image.index, vec![0, 0, 0, 0, 0, 0, 0, 0, 0, 0, 0, 0]);
}

fn region(len: usize) -> Result<memmap2::MmapMut, std::io::Error> {
    memmap2::MmapMut::map_anon(len)
}

fn no_region() -> Result<memmap2::MmapMut, std::io::Error> {
    Err(std::io::Error::new(std::io::ErrorKind::Other, "no memory"))
}

#[test]
fn segment_check_finds_what_is_wrong_with_the_index() {
    let index = vec![0, 0, 0, 0, 0, 0, 0, 0, 0, 0, 0, 0];
    assert_eq!(Segment::check(3, config(1024, 1024), &index), None);
    assert_eq!(Segment::check(3, config(1024, 1024), &[]), None);
    assert_eq!(Segment::check(3, config(1024, 1024), &index[..11]), Some(LogError::UnexpectedEof));
    assert_eq!(Segment::check(3, config(1024, 8), &index), Some(LogError::CapacityExceeded));
    assert_eq!(
        Segment::check(u64::MAX, config(1024, 1024), &index),
        Some(LogError::CapacityExceeded)
    );
    assert_eq!(Segment::check(u64::MAX, config(1024, 1024), &[]), None);
    let misplaced = vec![9, 0, 0, 0, 77, 0, 0, 0, 0, 0, 0, 0];
    assert_eq!(Segment::check(3, config(1024, 1024), &misplaced), None);
    assert_eq!(
        Segment::check(u64::MAX - 9, config(1024, 1024), &misplaced),
        Some(LogError::CapacityExceeded)
    );
    assert_eq!(Segment::check(u64::MAX - 10, config(1024, 1024), &misplaced), None);
}

#[test]
fn segment_with_arena_opens_in_the_region_given() {
    let store = vec![0, 0, 0, 0, 0, 0, 0, 1, b'a'];
    let index = vec![0, 0, 0, 0, 0, 0, 0, 0, 0, 0, 0, 0];
    let mut segment =
        Segment::with_arena("dir", 3, config(1024, 24), &store, &index, region(24)).unwrap();
    assert_eq!(segment.base_offset(), 3);
    assert_eq!(segment.next_offset(), 4);
    assert_eq!(segment.read(3), Ok(b"a".to_vec()));
    assert_eq!(segment.append(b"b"), Ok(4));
    assert_eq!(segment.append(b"c"), Err(LogError::CapacityExceeded));
    assert_eq!(segment.read(4), Ok(b"b".to_vec()));
}

#[test]
fn segment_with_arena_passes_a_failed_mapping_on() {
    let r = Segment::with_arena("dir", 3, config(1024, 1024), &[], &[], no_region());
    assert_eq!(r.unwrap_err(), LogError::Io);
}

#[test]
fn segment_with_arena_refuses_a_region_of_another_size() {
    let r = Segment::with_arena("dir", 3, config(1024, 1024), &[], &[], region(1023));
    assert_eq!(r.unwrap_err(), LogError::CapacityExceeded);
    let r = Segment::with_arena("dir", 3, config(1024, 1024), &[], &[], region(1025));
    assert_eq!(r.unwrap_err(), LogError::CapacityExceeded);
    let index = vec![0u8; 24];
    let store = vec![0u8; 8];
    let r = Segment::with_arena("dir", 3, config(1024, 1024), &store, &index[..12], region(0));
    assert_eq!(r.unwrap_err(), LogError::CapacityExceeded);
}

#[test]
fn segment_with_arena_puts_what_is_wrong_with_the_images_first() {
    let r = Segment::with_arena("dir", 3, config(1024, 1024), &[], &[0u8; 5], no_region());
    assert_eq!(r.unwrap_err(), LogError::UnexpectedEof);
    let r = Segment::with_arena("dir", 3, config(1024, 12), &[], &[0u8; 24], region(7));
    assert_eq!(r.unwrap_err(), LogError::CapacityExceeded);
    let r = Segment::with_arena("dir", u64::MAX, config(1024, 1024), &[], &[0u8; 12], no_region());
    assert_eq!(r.unwrap_err(), LogError::CapacityExceeded);
    let opened = Segment::with_arena("dir", 3, config(1024, 1024), &[], &[0u8; 12], region(1024));
    assert_eq!(opened.unwrap().read(3), Err(LogError::UnexpectedEof));
}
