use i18n_puzzles::fragment::{leading_count, missing_count, pack_values, MapPiece};

fn piece(rows: &[&[u8]]) -> MapPiece {
    MapPiece { bytes: rows.iter().map(|r| r.to_vec()).collect() }
}

#[test]
fn ascii_rows_give_zero_left_key() {
    let p = piece(&[b"ab\xe2", b"c\xc3\xa9", b"xyz"]);
    assert_eq!(p.keys(0, 3).0, 0);
}

#[test]
fn row_ending_in_three_byte_lead_misses_two() {
    let p = piece(&[b"a\xe2", b"b\xe2"]);
    let (_, right) = p.keys(0, 2);
    assert_eq!(right & 0b11, 2);
    assert_eq!((right >> 2) & 0b11, 2);
    assert_eq!(right, 2 + 2 * 4);
}

#[test]
fn left_and_right_counts() {
    assert_eq!(leading_count(&vec![0x95, 0x94, 0x41]), 2);
    assert_eq!(leading_count(&vec![0x41, 0x95]), 0);
    assert_eq!(leading_count(&vec![]), 0);
    assert_eq!(missing_count(&vec![0x41, 0xE2, 0x95]), 1);
    assert_eq!(missing_count(&vec![0xE2, 0x95, 0x94]), 0);
    assert_eq!(missing_count(&vec![0xF0]), 3);
    // only continuation bytes, or an empty row: nothing to continue
    assert_eq!(missing_count(&vec![0x95, 0x94]), 0);
    assert_eq!(missing_count(&vec![]), 0);
    // a stray continuation byte after an ASCII byte does not go below zero
    assert_eq!(missing_count(&vec![0x41, 0x80]), 0);
    // 0xFF announces no length
    assert_eq!(missing_count(&vec![0xFF]), 0);
}

#[test]
fn packing_keeps_two_bits_per_row() {
    assert_eq!(pack_values(&vec![1, 2, 3]), 1 + 2 * 4 + 3 * 16);
    // counts of four or more alias
    assert_eq!(pack_values(&vec![4, 5]), 0 + 1 * 4);
    // rows from the sixteenth on fall outside 32 bits
    let mut many = vec![0usize; 15];
    many.push(3);
    many.push(3);
    assert_eq!(pack_values(&many), 3 << 30);
    assert_eq!(pack_values(&vec![]), 0);
}

#[test]
fn keys_per_block() {
    let p = piece(&[b"\x95a", b"a\xc3", b"\x80\x80b", b"b\xf0"]);
    assert_eq!(p.keys(0, 2), (1, 4));
    assert_eq!(p.keys(1, 2), (2, 4 * 3));
    // a block past the last row is empty
    assert_eq!(p.keys(5, 2), (0, 0));
    // a block cut short by the last row
    assert_eq!(p.keys(1, 3), (0, 3));
    assert_eq!(p.keys(usize::MAX, usize::MAX), (0, 0));
}

#[test]
fn border_roles() {
    let top_left = piece(&["╔══".as_bytes(), "║ab".as_bytes()]);
    assert!(top_left.is_top_left());
    assert!(!top_left.is_top());
    assert!(!top_left.is_left());
    let left = piece(&["║ab".as_bytes(), "|cd".as_bytes()]);
    assert!(left.is_left());
    assert!(!left.is_top_left());
    let bottom_left = piece(&["║ab".as_bytes(), "╚══".as_bytes()]);
    assert!(bottom_left.is_bottom_left());
    let top = piece(&["-═-".as_bytes(), "abc".as_bytes()]);
    assert!(top.is_top());
    assert!(!piece(&[b"-\xe2"]).is_top());
    let empty = piece(&[]);
    assert!(!empty.is_top_left() && !empty.is_bottom_left() && !empty.is_top());
    assert!(empty.is_left());
    assert_eq!(empty.width(), 0);
    assert_eq!(empty.height(), 0);
    assert_eq!(top.width(), 5);
    assert_eq!(top.height(), 2);
}
