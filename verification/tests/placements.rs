use puzzle_assembly::{
    get_matrices_for_piece, piece_to_matrix, positions_for_pieces, Coord, Piece, Position,
    PuzzArray,
};

fn piece(cells: &[(u16, u16, u16)]) -> Piece {
    cells.iter().map(|&(x, y, z)| Coord { x, y, z }).collect()
}

fn at(x: u16, y: u16, flipped: bool) -> Position {
    Position { x, y, flipped }
}

fn filled(volume: &PuzzArray) -> Vec<usize> {
    (0..64).filter(|&cell| volume.contains(cell)).collect()
}

fn volume_of(cells: &[(u16, u16, u16)]) -> PuzzArray {
    piece_to_matrix(&piece(cells), &at(0, 0, false))
}

fn front_layer() -> Vec<(u16, u16, u16)> {
    let mut cells = Vec::new();
    for x in 0..6 {
        for y in 0..3 {
            cells.push((x, y, 0));
        }
    }
    cells
}

#[test]
fn flat_piece_has_36_placements() {
    let list = positions_for_pieces(&piece(&[(0, 0, 0), (1, 0, 0)]));
    assert_eq!(list.len(), 6 * 3 * 2);
    assert_eq!(list[0], at(0, 0, false));
    assert_eq!(list[1], at(0, 0, true));
    assert_eq!(list[2], at(0, 1, false));
    assert_eq!(list[5], at(0, 2, true));
    assert_eq!(list[6], at(1, 0, false));
    assert_eq!(list[35], at(5, 2, true));
}

#[test]
fn placements_come_by_column_then_row_then_flip() {
    let list = positions_for_pieces(&piece(&[(0, 0, 0), (1, 0, 0), (1, 1, 0), (1, 1, 1)]));
    assert_eq!(list.len(), 24);
    let mut expected = Vec::new();
    for x in 0..6 {
        for y in 0..2 {
            expected.push(at(x, y, false));
            expected.push(at(x, y, true));
        }
    }
    assert_eq!(list, expected);
}

#[test]
fn piece_of_full_height_has_one_row_offset() {
    let list = positions_for_pieces(&piece(&[(0, 0, 0), (0, 1, 0), (0, 2, 0)]));
    assert_eq!(list.len(), 12);
    assert!(list.iter().all(|p| p.y == 0));
    assert_eq!(list[11], at(5, 0, true));
}

#[test]
fn piece_reaching_row_3_has_no_placement() {
    assert!(positions_for_pieces(&piece(&[(0, 3, 0)])).is_empty());
    assert!(positions_for_pieces(&piece(&[(0, 0, 0), (0, 4, 0)])).is_empty());
    assert!(positions_for_pieces(&piece(&[(0, 65535, 0)])).is_empty());
}

#[test]
fn piece_without_cells_has_36_placements() {
    assert_eq!(positions_for_pieces(&piece(&[])).len(), 36);
}

#[test]
fn candidates_stay_within_the_target() {
    let target = volume_of(&[(0, 0, 0), (1, 0, 0), (2, 0, 0), (1, 1, 0)]);
    let list = get_matrices_for_piece(&piece(&[(0, 0, 0), (1, 0, 0), (1, 1, 0)]), &target);
    assert_eq!(list.len(), 1);
    assert_eq!(list[0].0, at(0, 0, false));
    assert_eq!(filled(&list[0].1), vec![0, 1, 7]);
}

#[test]
fn candidates_of_a_domino() {
    let target = volume_of(&[(0, 0, 0), (1, 0, 0), (2, 0, 0), (1, 1, 0)]);
    let list = get_matrices_for_piece(&piece(&[(0, 0, 0), (1, 0, 0)]), &target);
    assert_eq!(list.len(), 2);
    assert_eq!(list[0].0, at(0, 0, false));
    assert_eq!(filled(&list[0].1), vec![0, 1]);
    assert_eq!(list[1].0, at(1, 0, false));
    assert_eq!(filled(&list[1].1), vec![1, 2]);
}

#[test]
fn symmetric_piece_keeps_the_first_placement_of_each_pattern() {
    let target = volume_of(&front_layer());
    let list = get_matrices_for_piece(&piece(&[(0, 0, 0), (1, 0, 0)]), &target);
    // 36 placements, the flipped ones repeat the patterns of the unflipped
    assert_eq!(list.len(), 18);
    assert!(list.iter().all(|entry| !entry.0.flipped));
    assert_eq!(list[0].0, at(0, 0, false));
    assert_eq!(list[1].0, at(0, 1, false));
    assert_eq!(list[17].0, at(5, 2, false));
    assert_eq!(filled(&list[17].1), vec![12, 17]);
}

#[test]
fn asymmetric_piece_keeps_both_flips() {
    let target = volume_of(&front_layer());
    let list = get_matrices_for_piece(&piece(&[(0, 0, 0), (1, 0, 0), (1, 1, 0)]), &target);
    assert_eq!(list.len(), 24);
    assert_eq!(list[0].0, at(0, 0, false));
    assert_eq!(filled(&list[0].1), vec![0, 1, 7]);
    assert_eq!(list[1].0, at(0, 0, true));
    assert_eq!(filled(&list[1].1), vec![0, 6, 7]);
}

#[test]
fn every_candidate_holds_the_cells_of_its_placement() {
    let target = volume_of(&front_layer());
    let shape = piece(&[(0, 0, 0), (1, 0, 0), (1, 1, 0)]);
    for (position, volume) in get_matrices_for_piece(&shape, &target) {
        assert_eq!(filled(&volume), filled(&piece_to_matrix(&shape, &position)));
    }
}

#[test]
fn empty_target_admits_no_candidate() {
    let target = volume_of(&[]);
    assert!(get_matrices_for_piece(&piece(&[(0, 0, 0)]), &target).is_empty());
}

#[test]
fn empty_target_admits_the_piece_without_cells_once() {
    let target = volume_of(&[]);
    let list = get_matrices_for_piece(&piece(&[]), &target);
    assert_eq!(list.len(), 1);
    assert_eq!(list[0].0, at(0, 0, false));
    assert_eq!(filled(&list[0].1), Vec::<usize>::new());
}

#[test]
fn piece_in_the_back_layer_finds_no_place_in_the_front() {
    let target = volume_of(&front_layer());
    assert!(get_matrices_for_piece(&piece(&[(0, 0, 1)]), &target).is_empty());
}

#[test]
fn tall_piece_has_no_candidate() {
    let target = volume_of(&front_layer());
    assert!(get_matrices_for_piece(&piece(&[(0, 0, 0), (0, 3, 0)]), &target).is_empty());
}
