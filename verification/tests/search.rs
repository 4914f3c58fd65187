use puzzle_assembly::{
    build_pieces, build_target_shape, find_assemblies, get_matrices_for_piece, must_fill_shape,
    piece_fits, piece_in_depth, piece_to_matrix, Coord, Piece, Position, PuzzArray,
};

fn piece(cells: &[(u16, u16, u16)]) -> Piece {
    cells.iter().map(|&(x, y, z)| Coord { x, y, z }).collect()
}

fn at(x: u16, y: u16, flipped: bool) -> Position {
    Position { x, y, flipped }
}

fn filled(volume: &PuzzArray) -> Vec<usize> {
    (0..64).filter(|&cell| volume.contains(cell)).collect()
}

fn cells_at(shape: &Piece, position: &Position) -> Vec<usize> {
    filled(&piece_to_matrix(shape, position))
}

fn twin_puzzle() -> (Vec<Piece>, Piece) {
    let target = piece(&[
        (0, 0, 0),
        (1, 0, 0),
        (2, 0, 0),
        (4, 0, 0),
        (4, 1, 0),
        (0, 0, 1),
        (1, 0, 1),
        (2, 2, 0),
        (5, 2, 0),
    ]);
    let pieces = vec![
        piece(&[(0, 0, 0), (1, 0, 0), (2, 0, 0)]),
        piece(&[(0, 0, 0), (0, 1, 0)]),
        piece(&[(0, 0, 1), (1, 0, 1)]),
        piece(&[(0, 0, 0)]),
        piece(&[(0, 0, 0)]),
    ];
    (pieces, target)
}

#[test]
fn single_cell_single_piece() {
    let pieces = vec![piece(&[(0, 0, 0)])];
    let target = piece(&[(0, 0, 0)]);
    let must_fill = piece(&[(0, 0, 0)]);
    let result = find_assemblies(&pieces, &target, &must_fill);
    assert_eq!(result, vec![vec![at(0, 0, false)]]);
}

#[test]
fn cell_to_fill_outside_the_target() {
    let pieces = vec![piece(&[(0, 0, 0)])];
    let target = piece(&[(0, 0, 0)]);
    let must_fill = piece(&[(0, 0, 0), (1, 0, 0)]);
    assert!(find_assemblies(&pieces, &target, &must_fill).is_empty());
}

#[test]
fn cell_to_fill_outside_the_target_of_the_puzzle() {
    // (0, 0, 1) is not part of the puzzle's target
    let must_fill = piece(&[(0, 0, 1)]);
    assert!(find_assemblies(&build_pieces(), &build_target_shape(), &must_fill).is_empty());
}

#[test]
fn piece_spanning_beyond_the_rows() {
    let pieces = vec![piece(&[(0, 0, 0), (0, 1, 0), (0, 2, 0), (0, 3, 0)])];
    let target = build_target_shape();
    let must_fill = piece(&[]);
    assert!(find_assemblies(&pieces, &target, &must_fill).is_empty());
}

#[test]
fn piece_without_candidates_among_others() {
    let pieces = vec![
        piece(&[(0, 0, 0)]),
        piece(&[(0, 3, 0)]),
        piece(&[(0, 0, 0)]),
    ];
    let target = build_target_shape();
    let must_fill = piece(&[]);
    assert!(find_assemblies(&pieces, &target, &must_fill).is_empty());
    let pieces = vec![piece(&[(0, 0, 0)]), piece(&[(0, 0, 0)]), piece(&[(0, 3, 0)])];
    assert!(find_assemblies(&pieces, &target, &must_fill).is_empty());
    let pieces = vec![piece(&[(0, 3, 0)]), piece(&[(0, 0, 0)])];
    assert!(find_assemblies(&pieces, &target, &must_fill).is_empty());
}

#[test]
fn no_pieces_no_assembly() {
    let target = piece(&[(0, 0, 0)]);
    assert!(find_assemblies(&Vec::new(), &target, &piece(&[])).is_empty());
    assert!(find_assemblies(&Vec::new(), &target, &target).is_empty());
}

#[test]
fn twins_are_listed_in_one_order_only() {
    let (pieces, target) = twin_puzzle();
    let result = find_assemblies(&pieces, &target, &target);
    assert_eq!(
        result,
        vec![vec![
            at(0, 0, false),
            at(4, 0, false),
            at(0, 0, false),
            at(2, 2, false),
            at(5, 2, false),
        ]]
    );
}

#[test]
fn twin_order_goes_by_candidate_number() {
    let (pieces, target) = twin_puzzle();
    let target_matrix = piece_to_matrix(&target, &at(0, 0, false));
    let third = get_matrices_for_piece(&pieces[3], &target_matrix);
    let fourth = get_matrices_for_piece(&pieces[4], &target_matrix);
    let result = find_assemblies(&pieces, &target, &target);
    for assembly in &result {
        let a = third.iter().position(|entry| entry.0 == assembly[3]).unwrap();
        let b = fourth.iter().position(|entry| entry.0 == assembly[4]).unwrap();
        assert!(a < b);
    }
}

#[test]
fn four_pieces_are_not_held_to_the_twin_order() {
    // two single cells on two free cells: both orders are assemblies
    let target = piece(&[(0, 0, 0), (1, 0, 0), (0, 0, 1), (3, 1, 0), (5, 2, 0)]);
    let pieces = vec![
        piece(&[(0, 0, 0), (1, 0, 0)]),
        piece(&[(0, 0, 1)]),
        piece(&[(0, 0, 0)]),
        piece(&[(0, 0, 0)]),
    ];
    let result = find_assemblies(&pieces, &target, &target);
    assert_eq!(
        result,
        vec![
            vec![at(0, 0, false), at(0, 0, false), at(3, 1, false), at(5, 2, false)],
            vec![at(0, 0, false), at(0, 0, false), at(5, 2, false), at(3, 1, false)],
        ]
    );
}

#[test]
fn list_of_one_candidate_is_tried() {
    let pieces = vec![piece(&[(0, 0, 0)]), piece(&[(0, 0, 1)])];
    let target = piece(&[(0, 0, 0), (0, 0, 1)]);
    let result = find_assemblies(&pieces, &target, &target);
    assert_eq!(result, vec![vec![at(0, 0, false), at(0, 0, false)]]);
}

#[test]
fn last_candidate_of_a_list_is_tried() {
    let target = piece(&[(0, 0, 0), (1, 0, 0), (2, 0, 0), (1, 1, 0)]);
    let pieces = vec![piece(&[(0, 0, 0), (1, 0, 0)]), piece(&[(0, 0, 0)])];
    let must_fill = piece(&[(1, 1, 0)]);
    let result = find_assemblies(&pieces, &target, &must_fill);
    assert_eq!(
        result,
        vec![
            vec![at(0, 0, false), at(1, 1, false)],
            vec![at(1, 0, false), at(1, 1, false)],
        ]
    );
}

#[test]
fn overlapping_pieces_are_no_assembly() {
    let target = piece(&[(0, 0, 0), (1, 0, 0), (2, 0, 0), (1, 1, 0)]);
    let domino = piece(&[(0, 0, 0), (1, 0, 0)]);
    let upright = piece(&[(0, 0, 0), (0, 1, 0)]);
    assert!(find_assemblies(&vec![domino.clone(), upright], &target, &target).is_empty());
    assert!(find_assemblies(&vec![domino.clone(), domino], &target, &target).is_empty());
}

#[test]
fn nothing_to_fill_lists_every_disjoint_placing() {
    let target = piece(&[(0, 0, 0), (1, 0, 0), (2, 0, 0)]);
    let pieces = vec![piece(&[(0, 0, 0), (1, 0, 0)]), piece(&[(0, 0, 0)])];
    let result = find_assemblies(&pieces, &target, &piece(&[]));
    assert_eq!(
        result,
        vec![
            vec![at(0, 0, false), at(2, 0, false)],
            vec![at(1, 0, false), at(0, 0, false)],
        ]
    );
}

#[test]
fn puzzle_has_eight_assemblies() {
    let result = find_assemblies(&build_pieces(), &build_target_shape(), &must_fill_shape());
    let expected = vec![
        vec![
            at(0, 2, false),
            at(3, 2, false),
            at(2, 0, false),
            at(1, 0, true),
            at(3, 0, true),
            at(5, 0, false),
        ],
        vec![
            at(0, 2, false),
            at(3, 2, false),
            at(2, 0, true),
            at(1, 0, true),
            at(3, 0, true),
            at(5, 0, false),
        ],
        vec![
            at(2, 0, false),
            at(1, 2, false),
            at(4, 2, false),
            at(1, 0, true),
            at(3, 0, false),
            at(5, 0, false),
        ],
        vec![
            at(2, 0, false),
            at(1, 2, false),
            at(4, 2, true),
            at(1, 0, true),
            at(3, 0, false),
            at(5, 0, false),
        ],
        vec![
            at(2, 0, false),
            at(5, 2, true),
            at(2, 2, false),
            at(1, 0, true),
            at(3, 0, false),
            at(5, 0, false),
        ],
        vec![
            at(2, 0, false),
            at(5, 2, true),
            at(2, 2, true),
            at(1, 0, true),
            at(3, 0, false),
            at(5, 0, false),
        ],
        vec![
            at(2, 2, false),
            at(5, 2, true),
            at(2, 0, false),
            at(1, 0, true),
            at(3, 0, true),
            at(5, 0, false),
        ],
        vec![
            at(2, 2, false),
            at(5, 2, true),
            at(2, 0, true),
            at(1, 0, true),
            at(3, 0, true),
            at(5, 0, false),
        ],
    ];
    assert_eq!(result, expected);
}

#[test]
fn puzzle_candidates_per_piece() {
    let target = piece_to_matrix(&build_target_shape(), &at(0, 0, false));
    let counts: Vec<usize> = build_pieces()
        .iter()
        .map(|shape| get_matrices_for_piece(shape, &target).len())
        .collect();
    assert_eq!(counts, vec![14, 28, 24, 10, 10, 10]);
}

#[test]
fn puzzle_candidates_lie_within_the_target() {
    let target = piece_to_matrix(&build_target_shape(), &at(0, 0, false));
    for shape in build_pieces() {
        for (_, volume) in get_matrices_for_piece(&shape, &target) {
            for cell in 0..64 {
                assert!(!volume.contains(cell) || target.contains(cell));
            }
        }
    }
}

#[test]
fn puzzle_candidates_differ_in_their_cells() {
    let target = piece_to_matrix(&build_target_shape(), &at(0, 0, false));
    for shape in build_pieces() {
        let list = get_matrices_for_piece(&shape, &target);
        for i in 0..list.len() {
            for j in 0..i {
                assert_ne!(filled(&list[i].1), filled(&list[j].1));
            }
        }
    }
}

#[test]
fn puzzle_assemblies_place_the_pieces_apart() {
    let pieces = build_pieces();
    let result = find_assemblies(&pieces, &build_target_shape(), &must_fill_shape());
    assert!(!result.is_empty());
    for assembly in &result {
        assert_eq!(assembly.len(), pieces.len());
        let mut seen = vec![false; 64];
        for (shape, position) in pieces.iter().zip(assembly) {
            for cell in cells_at(shape, position) {
                assert!(!seen[cell]);
                seen[cell] = true;
            }
        }
    }
}

#[test]
fn puzzle_assemblies_fill_what_must_be_filled() {
    let pieces = build_pieces();
    let must_fill = must_fill_shape();
    let needed = cells_at(&must_fill, &at(0, 0, false));
    let result = find_assemblies(&pieces, &build_target_shape(), &must_fill);
    for assembly in &result {
        let mut union = Vec::new();
        for (shape, position) in pieces.iter().zip(assembly) {
            union.extend(cells_at(shape, position));
        }
        assert!(needed.iter().all(|cell| union.contains(cell)));
    }
}

#[test]
fn puzzle_twins_come_in_order() {
    let pieces = build_pieces();
    let target = build_target_shape();
    let target_matrix = piece_to_matrix(&target, &at(0, 0, false));
    let list = get_matrices_for_piece(&pieces[3], &target_matrix);
    for assembly in find_assemblies(&pieces, &target, &must_fill_shape()) {
        let a = list.iter().position(|entry| entry.0 == assembly[3]).unwrap();
        let b = list.iter().position(|entry| entry.0 == assembly[4]).unwrap();
        assert!(a < b);
    }
}

#[test]
fn two_runs_give_the_same_list() {
    let pieces = build_pieces();
    let target = build_target_shape();
    let must_fill = must_fill_shape();
    let first = find_assemblies(&pieces, &target, &must_fill);
    let second = find_assemblies(&pieces, &target, &must_fill);
    assert_eq!(first, second);
}

#[test]
fn puzzle_target_is_the_grid_without_two_cells() {
    let target = build_target_shape();
    assert_eq!(target.len(), 34);
    assert!(piece_fits(&target, &at(0, 0, false)));
    let expected: Vec<usize> = (0..36).filter(|&cell| cell != 18 && cell != 24).collect();
    assert_eq!(cells_at(&target, &at(0, 0, false)), expected);
    assert_eq!(target[0], Coord { x: 0, y: 0, z: 0 });
    assert_eq!(target[3], Coord { x: 0, y: 2, z: 1 });
    assert_eq!(target[33], Coord { x: 5, y: 2, z: 1 });
}

#[test]
fn puzzle_cells_to_fill() {
    let must_fill = must_fill_shape();
    assert_eq!(
        must_fill,
        piece(&[
            (1, 0, 0),
            (3, 1, 1),
            (0, 2, 1),
            (1, 2, 1),
            (2, 2, 1),
            (5, 0, 1),
            (5, 1, 1),
            (5, 2, 1),
        ])
    );
    assert!(piece_fits(&must_fill, &at(0, 0, false)));
    assert_eq!(cells_at(&must_fill, &at(0, 0, false)), vec![1, 23, 27, 29, 30, 31, 32, 35]);
}

#[test]
fn puzzle_pieces() {
    let pieces = build_pieces();
    assert_eq!(pieces.len(), 6);
    assert_eq!(pieces[0], piece(&[(0, 0, 0), (0, 0, 1), (1, 0, 0), (2, 0, 0), (2, 0, 1)]));
    assert_eq!(pieces[1], piece(&[(0, 0, 0), (1, 0, 0), (1, 0, 1), (2, 0, 1)]));
    assert_eq!(pieces[2], piece(&[(0, 0, 1), (1, 0, 1), (2, 0, 0), (2, 0, 1)]));
    assert_eq!(pieces[3], piece(&[(0, 2, 0), (0, 1, 0), (0, 1, 1), (0, 0, 1)]));
    assert_eq!(pieces[4], pieces[3]);
    assert_eq!(pieces[5], piece(&[(0, 0, 0), (0, 0, 1), (0, 1, 0), (0, 1, 1), (0, 2, 0)]));
    assert!(pieces.iter().all(piece_in_depth));
}
