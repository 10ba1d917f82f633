use i18n_puzzles::utf8::{begins_character, is_continuation_byte, is_starting_byte, sequence_size};

#[test]
fn sequence_size_of_known_prefixes() {
    assert_eq!(sequence_size(0x41), Some(1));
    assert_eq!(sequence_size(0xC3), Some(2));
    assert_eq!(sequence_size(0xE2), Some(3));
    assert_eq!(sequence_size(0xF0), Some(4));
    assert_eq!(sequence_size(0x80), None);
    assert_eq!(sequence_size(0xFF), None);
}

#[test]
fn continuation_iff_no_size_below_f8() {
    for b in 0u8..0xF8 {
        assert_eq!(is_continuation_byte(b), sequence_size(b).is_none() && b >= 0x80, "byte {b:#x}");
    }
    // 0xF8..=0xFF open no sequence and continue none.
    assert!(!is_continuation_byte(0xFF));
    assert_eq!(sequence_size(0xFF), None);
}

#[test]
fn byte_classes() {
    assert!(is_continuation_byte(0x80));
    assert!(is_continuation_byte(0xBF));
    assert!(!is_continuation_byte(0xC0));
    assert!(!is_continuation_byte(0x7F));
    assert!(is_starting_byte(0xC3));
    assert!(is_starting_byte(0xE2));
    assert!(!is_starting_byte(0x41));
    assert!(!is_starting_byte(0x95));
    assert!(begins_character(0x41));
    assert!(begins_character(0xE2));
    assert!(!begins_character(0x95));
}
