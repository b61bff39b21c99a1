use commitlog::discovery::{base_offsets, parse_base_offset, parse_number};

#[test]
fn parse_base_offset_reads_the_number_before_the_first_dot() {
    assert_eq!(parse_base_offset(b"0.store"), Some(0));
    assert_eq!(parse_base_offset(b"12.index"), Some(12));
    assert_eq!(parse_base_offset(b"42"), Some(42));
    assert_eq!(parse_base_offset(b"7.store.bak"), Some(7));
    assert_eq!(parse_base_offset(b"18446744073709551615.store"), Some(u64::MAX));
}

#[test]
fn parse_base_offset_skips_what_names_no_offset() {
    assert_eq!(parse_base_offset(b""), None);
    assert_eq!(parse_base_offset(b".store"), None);
    assert_eq!(parse_base_offset(b"store"), None);
    assert_eq!(parse_base_offset(b"abc.store"), None);
    assert_eq!(parse_base_offset(b"12a.store"), None);
    assert_eq!(parse_base_offset(b"-1.store"), None);
    assert_eq!(parse_base_offset(b" 1.store"), None);
    assert_eq!(parse_base_offset(b"18446744073709551616.store"), None);
    assert_eq!(parse_base_offset(b"99999999999999999999999.store"), None);
    assert_eq!(parse_base_offset(b"1844674407370955161a.store"), None);
}

#[test]
fn parse_number_takes_a_plus_sign_and_leading_zeros() {
    assert_eq!(parse_number(b"+5"), Some(5));
    assert_eq!(parse_number(b"007"), Some(7));
    assert_eq!(parse_number(b"+"), None);
    assert_eq!(parse_number(b"++5"), None);
    assert_eq!(parse_number(b"5+"), None);
    assert_eq!(parse_number(b"000000000000000000000018446744073709551615"), Some(u64::MAX));
}

#[test]
fn parse_number_agrees_with_the_standard_parser() {
    let texts: [&str; 12] = [
        "0", "1", "10", "+3", "-3", "", "+", "1.5", "0x10", "18446744073709551615",
        "18446744073709551616", "1_000",
    ];
    for text in texts {
        assert_eq!(parse_number(text.as_bytes()), text.parse::<u64>().ok());
    }
}

#[test]
fn base_offsets_are_distinct_and_ascending() {
    let names: Vec<Vec<u8>> = vec![
        b"10.store".to_vec(),
        b"0.index".to_vec(),
        b"10.index".to_vec(),
        b"notes.txt".to_vec(),
        b"3.store".to_vec(),
        b"0.store".to_vec(),
        b"3.index".to_vec(),
    ];
    assert_eq!(base_offsets(&names), vec![0, 3, 10]);
}

#[test]
fn base_offsets_of_an_empty_directory() {
    let names: Vec<Vec<u8>> = Vec::new();
    assert_eq!(base_offsets(&names), Vec::<u64>::new());
    let names: Vec<Vec<u8>> = vec![b"readme".to_vec(), b".lock".to_vec()];
    assert_eq!(base_offsets(&names), Vec::<u64>::new());
}
