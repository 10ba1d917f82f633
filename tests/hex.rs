use i18n_puzzles::hex::parse_bytes;

#[test]
fn hex_rows() {
    assert_eq!(parse_bytes("e29594"), Some(vec![0xe2, 0x95, 0x94]));
    assert_eq!(parse_bytes("00FFa0"), Some(vec![0x00, 0xff, 0xa0]));
    assert_eq!(parse_bytes(""), Some(vec![]));
    assert_eq!(parse_bytes("abc"), None);
    assert_eq!(parse_bytes("zz"), None);
}
