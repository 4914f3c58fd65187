use puzzle_assembly::{
    piece_fits, piece_in_depth, piece_to_matrix, Coord, Piece, Position, PuzzArray,
};

fn piece(cells: &[(u16, u16, u16)]) -> Piece {
    cells.iter().map(|&(x, y, z)| Coord { x, y, z }).collect()
}

fn at(x: u16, y: u16, flipped: bool) -> Position {
    Position { x, y, flipped }
}

fn filled(volume: &PuzzArray) -> Vec<usize> {
    (0..100).filter(|&cell| volume.contains(cell)).collect()
}

fn corner() -> Piece {
    piece(&[(0, 0, 0), (1, 0, 0), (1, 1, 0), (1, 1, 1)])
}

#[test]
fn empty_piece_fills_nothing() {
    let volume = piece_to_matrix(&piece(&[]), &at(3, 2, true));
    assert_eq!(filled(&volume), Vec::<usize>::new());
}

#[test]
fn single_cell_sets_the_bit_of_its_index() {
    // x + 6 * y + 18 * z
    let volume = piece_to_matrix(&piece(&[(4, 2, 1)]), &at(0, 0, false));
    assert_eq!(filled(&volume), vec![4 + 6 * 2 + 18]);
    assert!(volume.contains(34));
    assert!(!volume.contains(33));
    assert!(!volume.contains(35));
}

#[test]
fn last_cell_of_the_grid_is_bit_35() {
    let volume = piece_to_matrix(&piece(&[(5, 2, 1)]), &at(0, 0, false));
    assert_eq!(filled(&volume), vec![35]);
}

#[test]
fn no_cell_beyond_the_array_is_filled() {
    let volume = piece_to_matrix(&piece(&[(5, 2, 1)]), &at(0, 0, false));
    assert!(!volume.contains(64));
    assert!(!volume.contains(usize::MAX));
}

#[test]
fn identity_placement_keeps_the_coordinates() {
    let volume = piece_to_matrix(&corner(), &at(0, 0, false));
    assert_eq!(filled(&volume), vec![0, 1, 7, 25]);
}

#[test]
fn offsets_move_the_piece_and_wrap_around_the_cylinder() {
    let volume = piece_to_matrix(&corner(), &at(5, 1, false));
    assert_eq!(filled(&volume), vec![6, 11, 12, 30]);
}

#[test]
fn flipping_mirrors_within_the_extent() {
    let volume = piece_to_matrix(&corner(), &at(0, 0, true));
    assert_eq!(filled(&volume), vec![0, 6, 7, 18]);
}

#[test]
fn flipping_and_moving() {
    let volume = piece_to_matrix(&corner(), &at(4, 1, true));
    assert_eq!(filled(&volume), vec![10, 16, 17, 28]);
}

#[test]
fn column_wraps_for_large_coordinates() {
    // (7 + 5) mod 6 = 0
    let volume = piece_to_matrix(&piece(&[(7, 0, 0)]), &at(5, 0, false));
    assert_eq!(filled(&volume), vec![0]);
    let volume = piece_to_matrix(&piece(&[(65535, 1, 0)]), &at(65535, 0, false));
    assert_eq!(filled(&volume), vec![(65535 + 65535) % 6 + 6]);
}

#[test]
fn cells_that_coincide_set_one_bit() {
    let volume = piece_to_matrix(&piece(&[(0, 0, 0), (6, 0, 0), (0, 0, 0)]), &at(0, 0, false));
    // the flip mirrors within the largest x, 6, which is a full turn
    assert_eq!(filled(&volume), vec![0]);
}

#[test]
fn flipping_a_single_cell_changes_nothing() {
    let plain = piece_to_matrix(&piece(&[(0, 0, 0)]), &at(2, 1, false));
    let flipped = piece_to_matrix(&piece(&[(0, 0, 0)]), &at(2, 1, true));
    assert_eq!(filled(&plain), vec![8]);
    assert_eq!(filled(&flipped), vec![8]);
}

#[test]
fn fits_tells_rows_and_layers() {
    assert!(piece_fits(&corner(), &at(0, 0, false)));
    assert!(piece_fits(&corner(), &at(5, 1, true)));
    assert!(!piece_fits(&corner(), &at(0, 2, false)));
    assert!(!piece_fits(&corner(), &at(0, 2, true)));
    assert!(!piece_fits(&piece(&[(0, 0, 2)]), &at(0, 0, false)));
    assert!(!piece_fits(&piece(&[(0, 3, 0)]), &at(0, 0, false)));
    assert!(piece_fits(&piece(&[(77, 2, 1)]), &at(9, 0, false)));
    assert!(piece_fits(&piece(&[]), &at(0, 60000, true)));
}

#[test]
fn fits_with_offsets_near_the_largest_number() {
    assert!(!piece_fits(&piece(&[(0, 65535, 0)]), &at(0, 65535, false)));
    assert!(!piece_fits(&piece(&[(0, 0, 0)]), &at(0, 65535, true)));
}

#[test]
fn in_depth_tells_layers() {
    assert!(piece_in_depth(&corner()));
    assert!(piece_in_depth(&piece(&[])));
    assert!(piece_in_depth(&piece(&[(9, 9, 1)])));
    assert!(!piece_in_depth(&piece(&[(0, 0, 0), (0, 0, 2)])));
}

#[test]
fn a_copy_holds_the_same_cells() {
    let volume = piece_to_matrix(&corner(), &at(0, 0, false));
    let copy = volume.clone();
    assert_eq!(filled(&copy), filled(&volume));
}
