//! Pieces, placements, and the cells that a placed piece occupies.
//!
//! The grid is a cylinder: 6 cells around, 3 rows high and 2 layers deep. The
//! cell `(x, y, z)` has the index `x + 6 * y + 18 * z`. A piece is placed by
//! moving it around and up the cylinder, after mirroring it within its own
//! extent if the placement says so.

use crate::volume::{cells, PuzzArray};
use vstd::prelude::*;

verus! {

/// Where a piece is put: its offsets around and up the cylinder, and whether
/// it is mirrored first.
#[derive(Clone, Copy, Debug, PartialEq, Eq)]
pub struct Position {
    pub x: u16,
    pub y: u16,
    pub flipped: bool,
}

/// One cell of a piece, in the piece's own frame.
#[derive(Clone, Copy, Debug, PartialEq, Eq)]
pub struct Coord {
    pub x: u16,
    pub y: u16,
    pub z: u16,
}

/// A rigid shape: the cells it is made of.
pub type Piece = Vec<Coord>;

/// The placement that leaves a piece where its own frame puts it.
pub open spec fn identity() -> Position {
    Position { x: 0, y: 0, flipped: false }
}

/// The largest `x` among the cells of a piece; 0 for a piece without cells.
pub open spec fn max_x(piece: Seq<Coord>) -> int
    decreases piece.len(),
{
    if piece.len() == 0 {
        0
    } else {
        let rest = max_x(piece.drop_last());
        if piece.last().x > rest {
            piece.last().x as int
        } else {
            rest
        }
    }
}

/// The largest `y` among the cells of a piece; 0 for a piece without cells.
pub open spec fn max_y(piece: Seq<Coord>) -> int
    decreases piece.len(),
{
    if piece.len() == 0 {
        0
    } else {
        let rest = max_y(piece.drop_last());
        if piece.last().y > rest {
            piece.last().y as int
        } else {
            rest
        }
    }
}

/// The index of the grid cell `(x, y, z)`.
pub open spec fn cell_index(x: int, y: int, z: int) -> int {
    x + y * 6 + z * 18
}

/// The column in which the placement `position` puts cell `i` of `piece`.
pub open spec fn placed_x(piece: Seq<Coord>, position: Position, i: int) -> int {
    if position.flipped {
        (max_x(piece) - piece[i].x + position.x) % 6
    } else {
        (piece[i].x + position.x) % 6
    }
}

/// The row in which the placement `position` puts cell `i` of `piece`.
pub open spec fn placed_y(piece: Seq<Coord>, position: Position, i: int) -> int {
    if position.flipped {
        max_y(piece) - piece[i].y + position.y
    } else {
        piece[i].y + position.y
    }
}

/// The index of the grid cell that cell `i` of `piece` occupies under the
/// placement `position`.
pub open spec fn placed_cell(piece: Seq<Coord>, position: Position, i: int) -> int {
    cell_index(placed_x(piece, position, i), placed_y(piece, position, i), piece[i].z as int)
}

/// Every cell of the piece lies in one of the two layers of the grid.
pub open spec fn in_depth(piece: Seq<Coord>) -> bool {
    forall|i: int| 0 <= i < piece.len() ==> (#[trigger] piece[i]).z < 2
}

/// The placement keeps every cell of the piece inside the grid: its row is
/// one of the three rows and its layer one of the two layers. The column
/// wraps around the cylinder and is never outside.
pub open spec fn fits(piece: Seq<Coord>, position: Position) -> bool {
    forall|i: int|
        0 <= i < piece.len() ==> #[trigger] placed_y(piece, position, i) < 3 && piece[i].z < 2
}

/// The grid cells that the first `n` cells of `piece` occupy under `position`.
pub open spec fn occupied_by(piece: Seq<Coord>, position: Position, n: int) -> Set<int> {
    Set::new(
        |cell: int|
            exists|i: int| 0 <= i < n && #[trigger] placed_cell(piece, position, i) == cell,
    )
}

/// The grid cells that `piece` occupies under the placement `position`.
pub open spec fn occupied(piece: Seq<Coord>, position: Position) -> Set<int> {
    occupied_by(piece, position, piece.len() as int)
}

/// No cell of a piece lies beyond the piece's largest `x` and `y`, and a piece
/// with cells has one in its last column and one in its last row.
pub proof fn lemma_extent(piece: Seq<Coord>)
    ensures
        0 <= max_x(piece) <= u16::MAX,
        0 <= max_y(piece) <= u16::MAX,
        forall|i: int| 0 <= i < piece.len() ==> (#[trigger] piece[i]).x <= max_x(piece),
        forall|i: int| 0 <= i < piece.len() ==> (#[trigger] piece[i]).y <= max_y(piece),
        piece.len() > 0 ==> exists|i: int|
            0 <= i < piece.len() && (#[trigger] piece[i]).x == max_x(piece),
        piece.len() > 0 ==> exists|i: int|
            0 <= i < piece.len() && (#[trigger] piece[i]).y == max_y(piece),
    decreases piece.len(),
{
    if piece.len() > 0 {
        let front = piece.drop_last();
        let last = piece.len() - 1;
        lemma_extent(front);
        assert forall|i: int| 0 <= i < piece.len() implies (#[trigger] piece[i]).x <= max_x(
            piece,
        ) by {
            if i < last {
                assert(front[i] == piece[i]);
            }
        }
        assert forall|i: int| 0 <= i < piece.len() implies (#[trigger] piece[i]).y <= max_y(
            piece,
        ) by {
            if i < last {
                assert(front[i] == piece[i]);
            }
        }
    }
}

/// A placement that fits puts every cell of the piece on a cell of the grid.
pub proof fn lemma_placed_cell_in_grid(piece: Seq<Coord>, position: Position, i: int)
    requires
        fits(piece, position),
        0 <= i < piece.len(),
    ensures
        0 <= placed_x(piece, position, i) < 6,
        0 <= placed_y(piece, position, i) < 3,
        0 <= placed_cell(piece, position, i) < 36,
{
    lemma_extent(piece);
}

/// The index of a grid cell determines the cell.
pub proof fn lemma_cell_index_injective(x1: int, y1: int, z1: int, x2: int, y2: int, z2: int)
    requires
        0 <= x1 < 6 && 0 <= y1 < 3 && 0 <= z1,
        0 <= x2 < 6 && 0 <= y2 < 3 && 0 <= z2,
        cell_index(x1, y1, z1) == cell_index(x2, y2, z2),
    ensures
        x1 == x2 && y1 == y2 && z1 == z2,
{
}

/// Under a placement that fits, two cells of a piece occupy the same grid cell
/// only if they are in the same row and layer of the piece and their columns
/// differ by a multiple of the cylinder's width.
pub proof fn lemma_distinct_cells(piece: Seq<Coord>, position: Position, i: int, j: int)
    requires
        fits(piece, position),
        0 <= i < piece.len(),
        0 <= j < piece.len(),
        placed_cell(piece, position, i) == placed_cell(piece, position, j),
    ensures
        piece[i].x % 6 == piece[j].x % 6,
        piece[i].y == piece[j].y,
        piece[i].z == piece[j].z,
{
    lemma_placed_cell_in_grid(piece, position, i);
    lemma_placed_cell_in_grid(piece, position, j);
}

/// The largest `x` among the cells of `piece`.
pub(crate) fn widest(piece: &Piece) -> (m: u16)
    ensures
        m == max_x(piece@),
{
    let mut m: u16 = 0;
    let mut i: usize = 0;
    while i < piece.len()
        invariant
            i <= piece.len(),
            m == max_x(piece@.take(i as int)),
        decreases piece.len() - i,
    {
        assert(piece@.take(i + 1).drop_last() == piece@.take(i as int));
        if piece[i].x > m {
            m = piece[i].x;
        }
        i += 1;
    }
    assert(piece@.take(i as int) == piece@);
    m
}

/// The largest `y` among the cells of `piece`.
pub(crate) fn tallest(piece: &Piece) -> (m: u16)
    ensures
        m == max_y(piece@),
{
    let mut m: u16 = 0;
    let mut i: usize = 0;
    while i < piece.len()
        invariant
            i <= piece.len(),
            m == max_y(piece@.take(i as int)),
        decreases piece.len() - i,
    {
        assert(piece@.take(i + 1).drop_last() == piece@.take(i as int));
        if piece[i].y > m {
            m = piece[i].y;
        }
        i += 1;
    }
    assert(piece@.take(i as int) == piece@);
    m
}

/// Whether every cell of `piece` lies in one of the two layers of the grid.
pub fn piece_in_depth(piece: &Piece) -> (ok: bool)
    ensures
        ok == in_depth(piece@),
{
    let mut i: usize = 0;
    while i < piece.len()
        invariant
            i <= piece.len(),
            forall|k: int| 0 <= k < i ==> (#[trigger] piece@[k]).z < 2,
        decreases piece.len() - i,
    {
        if piece[i].z >= 2 {
            return false;
        }
        i += 1;
    }
    true
}

/// Whether the placement `position` keeps every cell of `piece` inside the
/// grid, which is what [`piece_to_matrix`] asks of its arguments.
pub fn piece_fits(piece: &Piece, position: &Position) -> (ok: bool)
    ensures
        ok == fits(piece@, *position),
{
    let top: u16 = tallest(piece);
    proof {
        lemma_extent(piece@);
    }
    let mut i: usize = 0;
    while i < piece.len()
        invariant
            i <= piece.len(),
            top == max_y(piece@),
            forall|k: int| 0 <= k < piece@.len() ==> (#[trigger] piece@[k]).y <= top,
            forall|k: int|
                0 <= k < i ==> #[trigger] placed_y(piece@, *position, k) < 3 && piece@[k].z < 2,
        decreases piece.len() - i,
    {
        let coord: Coord = piece[i];
        let row: u32 = if position.flipped {
            (top - coord.y) as u32 + position.y as u32
        } else {
            coord.y as u32 + position.y as u32
        };
        assert(row == placed_y(piece@, *position, i as int));
        if row >= 3 || coord.z >= 2 {
            return false;
        }
        i += 1;
    }
    true
}

/// Encodes a placed piece: the bit of every grid cell that `piece` occupies
/// under the placement `position` is set, and no other.
///
/// The placement has to keep the piece inside the grid; [`piece_fits`] tests
/// that.
pub fn piece_to_matrix(piece: &Piece, position: &Position) -> (volume: PuzzArray)
    requires
        fits(piece@, *position),
    ensures
        cells(volume) == occupied(piece@, *position),
{
    let mut res: PuzzArray = PuzzArray::zero();
    let right: u16 = widest(piece);
    let top: u16 = tallest(piece);
    proof {
        lemma_extent(piece@);
    }
    let mut i: usize = 0;
    while i < piece.len()
        invariant
            i <= piece.len(),
            fits(piece@, *position),
            right == max_x(piece@),
            top == max_y(piece@),
            forall|k: int| 0 <= k < piece@.len() ==> (#[trigger] piece@[k]).x <= right,
            forall|k: int| 0 <= k < piece@.len() ==> (#[trigger] piece@[k]).y <= top,
            cells(res) == occupied_by(piece@, *position, i as int),
        decreases piece.len() - i,
    {
        let coord: Coord = piece[i];
        proof {
            lemma_placed_cell_in_grid(piece@, *position, i as int);
        }
        let column: u32 = if position.flipped {
            ((right - coord.x) as u32 + position.x as u32) % 6  // wrap around the cylinder
        } else {
            (coord.x as u32 + position.x as u32) % 6
        };
        let row: u32 = if position.flipped {
            (top - coord.y) as u32 + position.y as u32
        } else {
            coord.y as u32 + position.y as u32
        };
        let index: u32 = column + row * 6 + coord.z as u32 * 18;
        res.set_bit(index as usize);
        i += 1;
    }
    res
}

} // verus!
