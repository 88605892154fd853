use simos::text::{
    contains_bytes, parse_i32, parse_u16, parse_u32, parse_u64, parse_u8, parse_usize, split_bytes,
    trim_end, trim_end_len,
};

#[test]
fn trim_end_removes_trailing_whitespace_only() {
    assert_eq!(trim_end(b"  12 \r\n"), b"  12".to_vec());
    assert_eq!(trim_end(b"\t\x0b\x0c"), Vec::<u8>::new());
    assert_eq!(trim_end("5\u{a0}\u{2003}\u{3000}".as_bytes()), b"5".to_vec());
    assert_eq!(trim_end("x\u{85}".as_bytes()), b"x".to_vec());
    assert_eq!(trim_end("x\u{200b}".as_bytes()), "x\u{200b}".as_bytes().to_vec());
    assert_eq!(trim_end_len(b"ab  "), 2);
    for s in ["a b\t\n", " \u{1680}x\u{2028}\u{2029}\u{202f}\u{205f} ", "", "plain"] {
        assert_eq!(trim_end(s.as_bytes()), s.trim_end().as_bytes().to_vec());
    }
}

#[test]
fn split_gives_one_more_piece_than_separators() {
    let pieces = split_bytes(b"a b  c", b' ');
    assert_eq!(pieces, vec![b"a".to_vec(), b"b".to_vec(), Vec::new(), b"c".to_vec()]);
    assert_eq!(split_bytes(b"", b'\n'), vec![Vec::<u8>::new()]);
    assert_eq!(split_bytes(b"x\n", b'\n'), vec![b"x".to_vec(), Vec::new()]);
}

#[test]
fn contains_finds_runs() {
    assert!(contains_bytes(b"PM_PORT:1040", b"PORT:"));
    assert!(!contains_bytes(b"PM_PORT:1040", b"M:"));
    assert!(contains_bytes(b"abc", b""));
    assert!(!contains_bytes(b"ab", b"abc"));
}

#[test]
fn unsigned_parsing_matches_str_parse() {
    assert_eq!(parse_u8(b"255"), Some(255));
    assert_eq!(parse_u8(b"256"), None);
    assert_eq!(parse_u8(b"+7"), Some(7));
    assert_eq!(parse_u8(b"-1"), None);
    assert_eq!(parse_u8(b"-0"), None);
    assert_eq!(parse_u8(b""), None);
    assert_eq!(parse_u8(b"+"), None);
    assert_eq!(parse_u8(b"1 "), None);
    assert_eq!(parse_u16(b"65535"), Some(65535));
    assert_eq!(parse_u16(b"0065535"), Some(65535));
    assert_eq!(parse_u16(b"65536"), None);
    assert_eq!(parse_u32(b"4294967295"), Some(u32::MAX));
    assert_eq!(parse_u32(b"4294967296"), None);
    assert_eq!(parse_u64(b"18446744073709551615"), Some(u64::MAX));
    assert_eq!(parse_u64(b"18446744073709551616"), None);
    assert_eq!(parse_usize(b"42"), Some(42));
    for s in ["0", "12", "+12", "-12", "1a", "99999", "65535"] {
        assert_eq!(parse_u16(s.as_bytes()), s.parse::<u16>().ok());
    }
}

#[test]
fn signed_parsing_matches_str_parse() {
    assert_eq!(parse_i32(b"-2147483648"), Some(i32::MIN));
    assert_eq!(parse_i32(b"-2147483649"), None);
    assert_eq!(parse_i32(b"2147483647"), Some(i32::MAX));
    assert_eq!(parse_i32(b"2147483648"), None);
    assert_eq!(parse_i32(b"-0"), Some(0));
    assert_eq!(parse_i32(b"-"), None);
    assert_eq!(parse_i32(b"+-1"), None);
    for s in ["-5", "+5", "5", "", "--5", "5-"] {
        assert_eq!(parse_i32(s.as_bytes()), s.parse::<i32>().ok());
    }
}
