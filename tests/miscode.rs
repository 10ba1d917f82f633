use i18n_puzzles::miscode::{decode_double_miscode, decode_miscode};

#[test]
fn test_decode_miscode() {
    assert_eq!(decode_miscode("religiÃ«n").as_deref(), Some("religiën"));
    assert_eq!(decode_miscode("kÃ¼rst").as_deref(), Some("kürst"));
    assert_eq!(decode_miscode("roekoeÃ«n").as_deref(), Some("roekoeën"));
}

#[test]
fn test_decode_double_miscode() {
    assert_eq!(decode_double_miscode("pugilarÃÂ£o").as_deref(), Some("pugilarão"));
}

#[test]
fn decode_miscode_refuses_what_is_no_latin1_utf8() {
    assert_eq!(decode_miscode("ë"), None);
    assert_eq!(decode_miscode("€"), None);
    assert_eq!(decode_miscode("plain").as_deref(), Some("plain"));
    assert_eq!(decode_miscode("").as_deref(), Some(""));
}
