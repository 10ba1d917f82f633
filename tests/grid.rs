use i18n_puzzles::fragment::MapPiece;
use i18n_puzzles::grid::FilledPieces;
use i18n_puzzles::reassemble::{assemble, fragment_keys};

fn piece(rows: &[&[u8]]) -> MapPiece {
    MapPiece { bytes: rows.iter().map(|r| r.to_vec()).collect() }
}

fn cells(grid: &FilledPieces) -> Vec<Option<usize>> {
    grid.indices().into_iter().map(|(r, c)| grid.get(r, c)).collect()
}

#[test]
fn new_grid_is_empty_and_get_out_of_range_is_none() {
    let grid = FilledPieces::new(3, 2);
    assert_eq!(cells(&grid), vec![None; 6]);
    assert_eq!(grid.get(2, 0), None);
    assert_eq!(grid.get(0, 3), None);
    assert_eq!(grid.width(), 3);
    assert_eq!(grid.height(), 2);
}

#[test]
fn indices_are_row_major() {
    let grid = FilledPieces::new(2, 2);
    assert_eq!(grid.indices(), vec![(0, 0), (0, 1), (1, 0), (1, 1)]);
    assert!(FilledPieces::new(0, 3).indices().is_empty());
}

#[test]
fn set_refuses_runs_past_the_bottom() {
    let mut grid = FilledPieces::new(2, 3);
    assert!(grid.set(1, 1, 7, 2));
    let before = cells(&grid);
    assert!(!grid.set(2, 0, 4, 2));
    assert!(!grid.set(0, 2, 4, 1));
    assert!(!grid.set(3, 0, 4, 1));
    assert_eq!(cells(&grid), before);
    assert_eq!(grid.get(1, 1), Some(7));
    assert_eq!(grid.get(2, 1), Some(7));
    assert_eq!(grid.get(0, 1), None);
}

#[test]
fn space_for_on_empty_grid_reaches_bottom() {
    let grid = FilledPieces::new(3, 4);
    for r in 0..4 {
        for c in 0..3 {
            assert_eq!(grid.space_for(r, c), 4 - r);
        }
    }
}

#[test]
fn space_for_stops_at_filled_cell() {
    let mut grid = FilledPieces::new(1, 5);
    assert!(grid.set(3, 0, 0, 1));
    assert_eq!(grid.space_for(0, 0), 3);
    assert_eq!(grid.space_for(3, 0), 0);
    assert_eq!(grid.space_for(4, 0), 1);
    assert_eq!(grid.space_for(9, 0), 0);
}

#[test]
fn key_index_counts_blocks_above() {
    let mut grid = FilledPieces::new(1, 4);
    assert!(grid.set(0, 0, 5, 3));
    assert_eq!(grid.key_index(0, 0), Some((5, 0)));
    assert_eq!(grid.key_index(2, 0), Some((5, 2)));
    assert_eq!(grid.key_index(3, 0), None);
    assert_eq!(grid.key_index(0, 1), None);
}

/// The 4 by 4 picture cut into four 2 by 2 fragments.
fn quarters() -> (Vec<Vec<u8>>, Vec<MapPiece>) {
    let picture = vec![
        vec![0x41, 0xE2, 0x95, 0x94],
        vec![0x42, 0xE2, 0x95, 0x97],
        vec![0x43, 0xC3, 0xA9, 0x44],
        vec![0x45, 0x46, 0x47, 0x48],
    ];
    let pieces = vec![
        piece(&[&[0x41, 0xE2], &[0x42, 0xE2]]),
        piece(&[&[0x95, 0x94], &[0x95, 0x97]]),
        piece(&[&[0x43, 0xC3], &[0x45, 0x46]]),
        piece(&[&[0xA9, 0x44], &[0x47, 0x48]]),
    ];
    (picture, pieces)
}

#[test]
fn four_quarters_are_put_back() {
    let (picture, pieces) = quarters();
    let keys = fragment_keys(&pieces, 2);
    assert_eq!(keys, vec![vec![(0, 10)], vec![(10, 0)], vec![(0, 1)], vec![(1, 0)]]);
    let mut grid = FilledPieces::new(2, 2);
    assert!(grid.set(0, 0, 0, 1));
    assert!(grid.set(1, 0, 2, 1));
    assert!(grid.solve(&keys));
    assert_eq!(cells(&grid), vec![Some(0), Some(1), Some(2), Some(3)]);

    let mut rebuilt = vec![vec![0u8; 4]; 4];
    for (r, c) in grid.indices() {
        let (p, offset) = grid.key_index(r, c).unwrap();
        for r2 in 0..2 {
            for c2 in 0..2 {
                rebuilt[r * 2 + r2][c * 2 + c2] = pieces[p].bytes[r2 + offset * 2][c2];
            }
        }
    }
    assert_eq!(rebuilt, picture);
    assert_eq!(assemble(&grid, &pieces, 2, 2), picture);
}

#[test]
fn solving_a_solved_grid_changes_nothing() {
    let (_, pieces) = quarters();
    let keys = fragment_keys(&pieces, 2);
    let mut grid = FilledPieces::new(2, 2);
    assert!(grid.set(0, 0, 0, 1));
    assert!(grid.set(1, 0, 2, 1));
    assert!(grid.solve(&keys));
    let once = cells(&grid);
    assert!(grid.solve(&keys));
    assert_eq!(cells(&grid), once);
}

#[test]
fn disagreeing_edges_get_stuck() {
    let pieces = vec![piece(&[&[0x41, 0xE2]]), piece(&[&[0x41, 0x42]])];
    let keys = fragment_keys(&pieces, 1);
    assert_eq!(keys, vec![vec![(0, 2)], vec![(0, 0)]]);
    let mut grid = FilledPieces::new(2, 1);
    assert!(grid.set(0, 0, 0, 1));
    assert!(!grid.solve(&keys));
    assert_eq!(cells(&grid), vec![Some(0), None]);
}

#[test]
fn taller_fragments_fill_runs_of_cells() {
    // fragment 1 is two blocks tall and matches the seed's right edge
    let pieces = vec![
        piece(&[&[0x41, 0xC3], &[0x41, 0x41]]),
        piece(&[&[0xA9, 0x41], &[0x41, 0x41], &[0x42, 0x42], &[0x42, 0x42]]),
        piece(&[&[0x43, 0x43], &[0x43, 0x43]]),
    ];
    let keys = fragment_keys(&pieces, 2);
    assert_eq!(keys[1], vec![(1, 0), (0, 0)]);
    let mut grid = FilledPieces::new(2, 2);
    assert!(grid.set(0, 0, 0, 1));
    assert!(grid.solve(&keys));
    assert_eq!(cells(&grid), vec![Some(0), Some(1), Some(2), Some(1)]);
    assert_eq!(grid.key_index(1, 1), Some((1, 1)));
}

#[test]
fn full_grid_is_solved_at_once() {
    let mut grid = FilledPieces::new(0, 0);
    assert!(grid.solve(&vec![]));
}
