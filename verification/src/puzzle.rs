//! The cylinder puzzle itself: its target, the cells that an assembly has to
//! fill, and its six pieces.

use crate::geometry::{
    cell_index, fits, identity, in_depth, occupied, placed_cell, placed_y, Coord, Piece,
};
use vstd::prelude::*;

verus! {

/// The cells of the puzzle's target: the whole grid but for the back layer of
/// column 0 in rows 0 and 1.
pub open spec fn target_cells() -> Set<int> {
    Set::new(|cell: int| 0 <= cell < 36 && cell != 18 && cell != 24)
}

/// The cells that an assembly of the puzzle has to fill.
pub open spec fn must_fill_coords() -> Seq<Coord> {
    seq![
        Coord { x: 1, y: 0, z: 0 },
        Coord { x: 3, y: 1, z: 1 },
        Coord { x: 0, y: 2, z: 1 },
        Coord { x: 1, y: 2, z: 1 },
        Coord { x: 2, y: 2, z: 1 },
        Coord { x: 5, y: 0, z: 1 },
        Coord { x: 5, y: 1, z: 1 },
        Coord { x: 5, y: 2, z: 1 },
    ]
}

/// The six pieces of the puzzle: three that lie flat and three that stand
/// upright, the fourth and the fifth of the same shape.
pub open spec fn piece_coords() -> Seq<Seq<Coord>> {
    seq![
        seq![
            Coord { x: 0, y: 0, z: 0 },
            Coord { x: 0, y: 0, z: 1 },
            Coord { x: 1, y: 0, z: 0 },
            Coord { x: 2, y: 0, z: 0 },
            Coord { x: 2, y: 0, z: 1 },
        ],
        seq![
            Coord { x: 0, y: 0, z: 0 },
            Coord { x: 1, y: 0, z: 0 },
            Coord { x: 1, y: 0, z: 1 },
            Coord { x: 2, y: 0, z: 1 },
        ],
        seq![
            Coord { x: 0, y: 0, z: 1 },
            Coord { x: 1, y: 0, z: 1 },
            Coord { x: 2, y: 0, z: 0 },
            Coord { x: 2, y: 0, z: 1 },
        ],
        seq![
            Coord { x: 0, y: 2, z: 0 },
            Coord { x: 0, y: 1, z: 0 },
            Coord { x: 0, y: 1, z: 1 },
            Coord { x: 0, y: 0, z: 1 },
        ],
        seq![
            Coord { x: 0, y: 2, z: 0 },
            Coord { x: 0, y: 1, z: 0 },
            Coord { x: 0, y: 1, z: 1 },
            Coord { x: 0, y: 0, z: 1 },
        ],
        seq![
            Coord { x: 0, y: 0, z: 0 },
            Coord { x: 0, y: 0, z: 1 },
            Coord { x: 0, y: 1, z: 0 },
            Coord { x: 0, y: 1, z: 1 },
            Coord { x: 0, y: 2, z: 0 },
        ],
    ]
}

/// A cell added to a piece that stays where its own frame puts it adds the
/// grid cell of the same coordinates to those that the piece occupies.
proof fn lemma_occupied_push(piece: Seq<Coord>, coord: Coord)
    requires
        coord.x < 6,
    ensures
        occupied(piece.push(coord), identity()) == occupied(piece, identity()).insert(
            cell_index(coord.x as int, coord.y as int, coord.z as int),
        ),
        fits(piece, identity()) && coord.y < 3 && coord.z < 2 ==> fits(
            piece.push(coord),
            identity(),
        ),
{
    let longer = piece.push(coord);
    let here = identity();
    assert forall|i: int| 0 <= i < piece.len() implies placed_cell(longer, here, i) == placed_cell(
        piece,
        here,
        i,
    ) && placed_y(longer, here, i) == placed_y(piece, here, i) by {
        assert(longer[i] == piece[i]);
    }
    assert(placed_cell(longer, here, piece.len() as int) == cell_index(
        coord.x as int,
        coord.y as int,
        coord.z as int,
    ));
}

/// The part of the target in the columns before `x`, and in column `x` in the
/// rows before `y`.
spec fn target_before(x: int, y: int) -> Set<int> {
    Set::new(
        |cell: int|
            target_cells().contains(cell) && (cell % 6 < x || (cell % 6 == x && (cell / 6) % 3
                < y)),
    )
}

/// Builds the target of the puzzle, column by column and row by row.
pub fn build_target_shape() -> (target_shape: Piece)
    ensures
        fits(target_shape@, identity()),
        occupied(target_shape@, identity()) == target_cells(),
{
    let mut target_shape: Vec<Coord> = Vec::new();
    let mut x: u16 = 0;
    while x < 6
        invariant
            x <= 6,
            fits(target_shape@, identity()),
            occupied(target_shape@, identity()) == target_before(x as int, 0),
        decreases 6 - x,
    {
        let mut y: u16 = 0;
        while y < 3
            invariant
                x < 6,
                y <= 3,
                fits(target_shape@, identity()),
                occupied(target_shape@, identity()) == target_before(x as int, y as int),
            decreases 3 - y,
        {
            let ghost before = target_shape@;
            if x == 0 && y < 2 {
                target_shape.push(Coord { x, y, z: 0 });
                proof {
                    lemma_occupied_push(before, Coord { x, y, z: 0 });
                }
            } else {
                target_shape.push(Coord { x, y, z: 0 });
                target_shape.push(Coord { x, y, z: 1 });
                proof {
                    lemma_occupied_push(before, Coord { x, y, z: 0 });
                    lemma_occupied_push(before.push(Coord { x, y, z: 0 }), Coord { x, y, z: 1 });
                }
            }
            y += 1;
        }
        x += 1;
    }
    target_shape
}

/// Builds the cells that an assembly of the puzzle has to fill: the hole at
/// the bottom, the hole in the outer wall, and the two rims of the back
/// layer.
pub fn must_fill_shape() -> (target_shape: Piece)
    ensures
        target_shape@ == must_fill_coords(),
        fits(target_shape@, identity()),
{
    let mut target_shape: Vec<Coord> = Vec::new();
    // hole at bottom
    target_shape.push(Coord { x: 1, y: 0, z: 0 });
    // look-through hole in outer wall
    target_shape.push(Coord { x: 3, y: 1, z: 1 });
    let mut x: u16 = 0;
    while x < 3
        invariant
            x <= 3,
            target_shape@ == must_fill_coords().take(2 + x),
        decreases 3 - x,
    {
        target_shape.push(Coord { x, y: 2, z: 1 });
        x += 1;
    }
    let mut y: u16 = 0;
    while y < 3
        invariant
            y <= 3,
            target_shape@ == must_fill_coords().take(5 + y),
        decreases 3 - y,
    {
        target_shape.push(Coord { x: 5, y, z: 1 });
        y += 1;
    }
    target_shape
}

/// Builds the six pieces of the puzzle.
pub fn build_pieces() -> (pieces: Vec<Piece>)
    ensures
        pieces@.len() == 6,
        forall|i: int| 0 <= i < 6 ==> (#[trigger] pieces@[i])@ == piece_coords()[i],
        forall|i: int| 0 <= i < 6 ==> in_depth((#[trigger] pieces@[i])@),
{
    let pieces: Vec<Piece> = vec![
        // h1
        vec![
            Coord { x: 0, y: 0, z: 0 },
            Coord { x: 0, y: 0, z: 1 },
            Coord { x: 1, y: 0, z: 0 },
            Coord { x: 2, y: 0, z: 0 },
            Coord { x: 2, y: 0, z: 1 },
        ],
        // h2
        vec![
            Coord { x: 0, y: 0, z: 0 },
            Coord { x: 1, y: 0, z: 0 },
            Coord { x: 1, y: 0, z: 1 },
            Coord { x: 2, y: 0, z: 1 },
        ],
        // h3
        vec![
            Coord { x: 0, y: 0, z: 1 },
            Coord { x: 1, y: 0, z: 1 },
            Coord { x: 2, y: 0, z: 0 },
            Coord { x: 2, y: 0, z: 1 },
        ],
        // v1
        vec![
            Coord { x: 0, y: 2, z: 0 },
            Coord { x: 0, y: 1, z: 0 },
            Coord { x: 0, y: 1, z: 1 },
            Coord { x: 0, y: 0, z: 1 },
        ],
        // v1, again
        vec![
            Coord { x: 0, y: 2, z: 0 },
            Coord { x: 0, y: 1, z: 0 },
            Coord { x: 0, y: 1, z: 1 },
            Coord { x: 0, y: 0, z: 1 },
        ],
        // v2
        vec![
            Coord { x: 0, y: 0, z: 0 },
            Coord { x: 0, y: 0, z: 1 },
            Coord { x: 0, y: 1, z: 0 },
            Coord { x: 0, y: 1, z: 1 },
            Coord { x: 0, y: 2, z: 0 },
        ],
    ];
    pieces
}

} // verus!
