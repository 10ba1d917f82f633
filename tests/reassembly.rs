use i18n_puzzles::fragment::MapPiece;
use i18n_puzzles::reassemble::{
    block_height, count_left_column_rows, count_tops, find_top_left, reassemble,
};

fn piece(rows: &[&[u8]]) -> MapPiece {
    MapPiece { bytes: rows.iter().map(|r| r.to_vec()).collect() }
}

#[test]
fn framed_strip_is_reassembled() {
    let pieces = vec![
        piece(&["═".as_bytes()]),
        piece(&["╗".as_bytes()]),
        piece(&["╔".as_bytes()]),
    ];
    assert_eq!(block_height(&pieces), 1);
    assert_eq!(count_tops(&pieces), 1);
    assert_eq!(count_left_column_rows(&pieces), 1);
    assert_eq!(find_top_left(&pieces), Some(2));
    let map = reassemble(&pieces).unwrap();
    assert_eq!(map, vec!["╔═╗".as_bytes().to_vec()]);
}

#[test]
fn frame_with_left_column() {
    // two block rows: the corner, then a left edge; blocks are 1 row tall
    let pieces = vec![
        piece(&["║".as_bytes()]),
        piece(&["═".as_bytes(), "x".repeat(3).as_bytes()]),
        piece(&["╔".as_bytes()]),
        piece(&["╗".as_bytes(), "|xy".as_bytes()]),
    ];
    assert_eq!(block_height(&pieces), 1);
    assert_eq!(count_tops(&pieces), 1);
    // the corner and the left edge; the last piece's first row has no border
    assert_eq!(count_left_column_rows(&pieces), 2);
    assert_eq!(find_top_left(&pieces), Some(2));
}

#[test]
fn no_top_left_corner_gives_nothing() {
    let pieces = vec![piece(&["═".as_bytes()]), piece(&["╗".as_bytes()])];
    assert_eq!(find_top_left(&pieces), None);
    assert_eq!(reassemble(&pieces), None);
    assert_eq!(reassemble(&vec![]), None);
    assert_eq!(reassemble(&vec![piece(&[])]), None);
}

#[test]
fn stuck_search_gives_nothing() {
    let pieces = vec![piece(&[&[0xE2, 0x95, 0x94, 0xE2]]), piece(&[b"----"])];
    assert_eq!(reassemble(&pieces), None);
}
