use i18n_puzzles::encodings::{
    parse_line, parse_str_latin1, parse_str_utf16be, parse_str_utf16le, parse_str_utf8,
};

#[test]
fn utf8_with_and_without_mark() {
    assert_eq!(parse_str_utf8(&[0xEF, 0xBB, 0xBF, 0x68, 0xC3, 0xA9]).as_deref(), Some("hé"));
    assert_eq!(parse_str_utf8(&[0x68, 0xC3, 0xA9]).as_deref(), Some("hé"));
    assert_eq!(parse_str_utf8(&[0x68, 0xE9]), None);
    assert_eq!(parse_str_utf8(&[]).as_deref(), Some(""));
}

#[test]
fn latin1_bytes_are_code_points() {
    assert_eq!(parse_str_latin1(&[0x68, 0xE9]), "hé");
    assert_eq!(parse_str_latin1(&[]), "");
}

#[test]
fn utf16_both_orders() {
    assert_eq!(parse_str_utf16le(&[0x68, 0x00, 0xE9, 0x00]).as_deref(), Some("hé"));
    assert_eq!(parse_str_utf16le(&[0xFF, 0xFE, 0x68, 0x00]).as_deref(), Some("h"));
    assert_eq!(parse_str_utf16le(&[0xFE, 0xFF, 0x00, 0x68]), None);
    assert_eq!(parse_str_utf16le(&[]), None);
    assert_eq!(parse_str_utf16le(&[0x68]), None);
    assert_eq!(parse_str_utf16le(&[0x00, 0xD8]), None);
    assert_eq!(parse_str_utf16le(&[0x3D, 0xD8, 0x00, 0xDE]).as_deref(), Some("😀"));
    assert_eq!(parse_str_utf16be(&[0x00, 0x68, 0x00, 0xE9]).as_deref(), Some("hé"));
    assert_eq!(parse_str_utf16be(&[0xFE, 0xFF, 0x00, 0x68]).as_deref(), Some("h"));
    assert_eq!(parse_str_utf16be(&[0x00]), None);
}

#[test]
fn every_reading_of_a_line() {
    let readings = parse_line("0068").unwrap();
    assert_eq!(readings, vec!["\u{0}h".to_string(), "\u{0}h".to_string(), "栀".to_string(), "h".to_string()]);
    assert_eq!(parse_line("e9"), Some(vec!["é".to_string()]));
    assert_eq!(parse_line("e"), None);
}
