//! The placements of a piece, and those among them that a target admits.

use crate::geometry::{
    fits, in_depth, lemma_extent, max_y, occupied, piece_to_matrix, tallest, Coord, Piece,
    Position,
};
use crate::volume::{cells, PuzzArray};
use vstd::arithmetic::div_mod::{lemma_fundamental_div_mod, lemma_fundamental_div_mod_converse};
use vstd::prelude::*;

verus! {

/// The number of rows by which a piece can be moved up without leaving the
/// grid: 3 less its largest `y`, and none if that is 3 or more.
pub open spec fn vertical_slots(piece: Seq<Coord>) -> int {
    if max_y(piece) < 3 {
        3 - max_y(piece)
    } else {
        0
    }
}

/// Placement number `k` of a piece with `slots` vertical slots. The
/// placements are numbered by column offset, then row offset, then unflipped
/// before flipped.
pub open spec fn placement_at(slots: int, k: int) -> Position {
    Position { x: ((k / 2) / slots) as u16, y: ((k / 2) % slots) as u16, flipped: k % 2 == 1 }
}

/// All placements of a piece, in order: 6 column offsets, times its vertical
/// slots, times unflipped and flipped.
pub open spec fn placements(piece: Seq<Coord>) -> Seq<Position> {
    Seq::new(
        (12 * vertical_slots(piece)) as nat,
        |k: int| placement_at(vertical_slots(piece), k),
    )
}

/// The grid cells that a piece occupies under its placement number `k`.
pub open spec fn pattern(piece: Seq<Coord>, k: int) -> Set<int> {
    occupied(piece, placements(piece)[k])
}

/// Placement number `k` is kept for `target`: the piece stays within the
/// target, and no earlier placement occupies the very same cells.
pub open spec fn keeps(piece: Seq<Coord>, target: Set<int>, k: int) -> bool {
    &&& pattern(piece, k).subset_of(target)
    &&& forall|j: int| 0 <= j < k ==> #[trigger] pattern(piece, j) != pattern(piece, k)
}

/// `position` is one of the first `n` placements, and one that is kept.
pub open spec fn kept_among(
    piece: Seq<Coord>,
    target: Set<int>,
    n: int,
    position: Position,
) -> bool {
    exists|k: int|
        0 <= k < n && #[trigger] keeps(piece, target, k) && placements(piece)[k] == position
}

/// The placements that are kept among the first `n`, in order.
pub open spec fn candidates_among(piece: Seq<Coord>, target: Set<int>, n: int) -> Seq<Position>
    decreases n,
{
    if n <= 0 {
        Seq::empty()
    } else if keeps(piece, target, n - 1) {
        candidates_among(piece, target, n - 1).push(placements(piece)[n - 1])
    } else {
        candidates_among(piece, target, n - 1)
    }
}

/// The candidate placements of a piece for a target: of all its placements,
/// in order, those that stay within the target, and of several that occupy
/// the same cells only the first.
pub open spec fn candidates(piece: Seq<Coord>, target: Set<int>) -> Seq<Position> {
    candidates_among(piece, target, placements(piece).len() as int)
}

/// The placements of a list of encoded candidates.
pub open spec fn positions_of(list: Seq<(Position, PuzzArray)>) -> Seq<Position> {
    Seq::new(list.len(), |i: int| list[i].0)
}

/// Placement number `2 * (x * slots + y)` moves the piece by `x` and `y` and
/// leaves it unflipped; the next one moves it alike and flips it.
proof fn lemma_placement_at(slots: int, x: int, y: int)
    requires
        1 <= slots <= 3,
        0 <= x < 6,
        0 <= y < slots,
    ensures
        0 <= 2 * (x * slots + y),
        2 * (x * slots + y) + 1 < 12 * slots,
        placement_at(slots, 2 * (x * slots + y)) == (Position {
            x: x as u16,
            y: y as u16,
            flipped: false,
        }),
        placement_at(slots, 2 * (x * slots + y) + 1) == (Position {
            x: x as u16,
            y: y as u16,
            flipped: true,
        }),
{
    let pair = x * slots + y;
    lemma_fundamental_div_mod_converse(pair, slots, x, y);
    assert(0 <= x * slots <= 5 * slots) by (nonlinear_arith)
        requires
            0 <= x <= 5,
            0 <= slots,
    ;
}

/// The placements of a piece hold every way to move it by a column offset
/// below 6 and a row offset below its vertical slots, unflipped and flipped.
pub proof fn lemma_placements_complete(piece: Seq<Coord>, position: Position)
    requires
        position.x < 6,
        position.y < vertical_slots(piece),
    ensures
        placements(piece).contains(position),
{
    let slots = vertical_slots(piece);
    let k = 2 * (position.x * slots + position.y);
    lemma_placement_at(slots, position.x as int, position.y as int);
    if position.flipped {
        assert(placements(piece)[k + 1] == position);
    } else {
        assert(placements(piece)[k] == position);
    }
}

/// Every placement of a piece keeps it within the rows of the grid, and so
/// within the grid if the piece lies within its two layers.
pub proof fn lemma_placements_fit(piece: Seq<Coord>, k: int)
    requires
        in_depth(piece),
        0 <= k < placements(piece).len(),
    ensures
        fits(piece, placements(piece)[k]),
        placements(piece)[k].x < 6,
        placements(piece)[k].y < vertical_slots(piece),
{
    lemma_extent(piece);
    let slots = vertical_slots(piece);
    let pair = k / 2;
    lemma_fundamental_div_mod(pair, slots);
    assert(0 <= pair / slots < 6) by (nonlinear_arith)
        requires
            0 <= pair < 6 * slots,
            0 <= pair % slots < slots,
            pair == slots * (pair / slots) + pair % slots,
    ;
}

/// Every candidate among the first `n` placements is one of them and is kept,
/// and no two candidates occupy the same cells.
pub proof fn lemma_candidates_sound(piece: Seq<Coord>, target: Set<int>, n: int)
    requires
        0 <= n <= placements(piece).len(),
    ensures
        candidates_among(piece, target, n).len() <= n,
        forall|i: int|
            0 <= i < candidates_among(piece, target, n).len() ==> kept_among(
                piece,
                target,
                n,
                #[trigger] candidates_among(piece, target, n)[i],
            ),
        forall|i: int, j: int|
            0 <= i < j < candidates_among(piece, target, n).len() ==> occupied(
                piece,
                #[trigger] candidates_among(piece, target, n)[i],
            ) != occupied(piece, #[trigger] candidates_among(piece, target, n)[j]),
    decreases n,
{
    if n > 0 {
        lemma_candidates_sound(piece, target, n - 1);
    }
}

/// Each of the first `n` placements that stays within the target has its
/// cells occupied by one of the candidates among them.
pub proof fn lemma_candidates_complete(piece: Seq<Coord>, target: Set<int>, n: int, k: int)
    requires
        0 <= k < n <= placements(piece).len(),
        pattern(piece, k).subset_of(target),
    ensures
        exists|i: int|
            0 <= i < candidates_among(piece, target, n).len() && occupied(
                piece,
                #[trigger] candidates_among(piece, target, n)[i],
            ) == pattern(piece, k),
    decreases n,
{
    let before = candidates_among(piece, target, n - 1);
    let now = candidates_among(piece, target, n);
    if k < n - 1 {
        lemma_candidates_complete(piece, target, n - 1, k);
        let i = choose|i: int|
            0 <= i < before.len() && occupied(piece, #[trigger] before[i]) == pattern(piece, k);
        assert(now[i] == before[i]);
    } else if keeps(piece, target, k) {
        assert(now[before.len() as int] == placements(piece)[k]);
    } else {
        let j = choose|j: int| 0 <= j < k && #[trigger] pattern(piece, j) == pattern(piece, k);
        lemma_candidates_complete(piece, target, n - 1, j);
    }
}

/// A candidate placement keeps its piece within the target.
pub proof fn lemma_candidate_within_target(piece: Seq<Coord>, target: Set<int>, i: int)
    requires
        0 <= i < candidates(piece, target).len(),
    ensures
        occupied(piece, candidates(piece, target)[i]).subset_of(target),
        occupied(piece, candidates(piece, target)[i]).intersect(target) == occupied(
            piece,
            candidates(piece, target)[i],
        ),
{
    let position = candidates(piece, target)[i];
    lemma_candidates_sound(piece, target, placements(piece).len() as int);
    assert(kept_among(piece, target, placements(piece).len() as int, position));
    let k = choose|k: int|
        0 <= k < placements(piece).len() && #[trigger] keeps(piece, target, k) && placements(
            piece,
        )[k] == position;
    assert(pattern(piece, k) == occupied(piece, position));
    assert(occupied(piece, position).intersect(target) =~= occupied(piece, position));
}

/// No two candidate placements of a piece occupy the same cells.
pub proof fn lemma_candidates_differ(piece: Seq<Coord>, target: Set<int>, i: int, j: int)
    requires
        0 <= i < candidates(piece, target).len(),
        0 <= j < candidates(piece, target).len(),
        i != j,
    ensures
        occupied(piece, candidates(piece, target)[i]) != occupied(
            piece,
            candidates(piece, target)[j],
        ),
{
    lemma_candidates_sound(piece, target, placements(piece).len() as int);
    if i < j {
        assert(occupied(piece, candidates(piece, target)[i]) != occupied(
            piece,
            candidates(piece, target)[j],
        ));
    } else {
        assert(occupied(piece, candidates(piece, target)[j]) != occupied(
            piece,
            candidates(piece, target)[i],
        ));
    }
}

/// A piece that reaches row 3 or beyond has no candidate placement.
pub proof fn lemma_tall_piece_no_candidate(piece: Seq<Coord>, target: Set<int>)
    requires
        max_y(piece) >= 3,
    ensures
        candidates(piece, target).len() == 0,
{
    assert(placements(piece).len() == 0);
}

/// Enumerates the placements of a piece: for each of the 6 column offsets and
/// each row offset that keeps the piece within the 3 rows, the unflipped and
/// then the flipped placement. A piece that reaches row 3 or beyond has none.
pub fn positions_for_pieces(piece: &Piece) -> (res: Vec<Position>)
    ensures
        res@ == placements(piece@),
{
    let top: u16 = tallest(piece);
    let slots: u16 = if top < 3 {
        3 - top
    } else {
        0
    };
    let mut res: Vec<Position> = Vec::new();
    let mut x: u16 = 0;
    while x < 6
        invariant
            x <= 6,
            slots == vertical_slots(piece@),
            0 <= slots <= 3,
            res@.len() == 2 * (x * slots),
            forall|k: int| 0 <= k < res@.len() ==> res@[k] == placement_at(slots as int, k),
        decreases 6 - x,
    {
        let mut y: u16 = 0;
        while y < slots
            invariant
                x < 6,
                y <= slots,
                0 <= slots <= 3,
                res@.len() == 2 * (x * slots + y),
                forall|k: int| 0 <= k < res@.len() ==> res@[k] == placement_at(slots as int, k),
            decreases slots - y,
        {
            proof {
                lemma_placement_at(slots as int, x as int, y as int);
            }
            res.push(Position { x, y, flipped: false });
            res.push(Position { x, y, flipped: true });
            y += 1;
        }
        assert((x + 1) * slots == x * slots + slots) by (nonlinear_arith);
        x += 1;
    }
    res
}

/// Lists the candidate placements of a piece for a target, each with the
/// cells it occupies.
///
/// Every placement of the piece is encoded. It is kept if it sets no bit
/// outside `target`, unless a placement kept before sets exactly the same
/// bits: a symmetric piece reaches one pattern by several placements, and
/// only the first of them is a candidate.
pub fn get_matrices_for_piece(piece: &Piece, target: &PuzzArray) -> (res: Vec<
    (Position, PuzzArray),
>)
    requires
        in_depth(piece@),
    ensures
        positions_of(res@) == candidates(piece@, cells(*target)),
        forall|i: int|
            0 <= i < res@.len() ==> cells((#[trigger] res@[i]).1) == occupied(piece@, res@[i].0),
        forall|i: int|
            0 <= i < res@.len() ==> cells((#[trigger] res@[i]).1).intersect(cells(*target))
                == cells(res@[i].1),
        forall|i: int, j: int|
            0 <= i < j < res@.len() ==> cells((#[trigger] res@[i]).1) != cells(
                (#[trigger] res@[j]).1,
            ),
{
    let mut res: Vec<(Position, PuzzArray)> = Vec::new();
    let positions: Vec<Position> = positions_for_pieces(piece);
    let ghost goal = cells(*target);
    let mut k: usize = 0;
    while k < positions.len()
        invariant
            k <= positions.len(),
            in_depth(piece@),
            positions@ == placements(piece@),
            goal == cells(*target),
            positions_of(res@) == candidates_among(piece@, goal, k as int),
            forall|i: int|
                0 <= i < res@.len() ==> cells((#[trigger] res@[i]).1) == occupied(
                    piece@,
                    res@[i].0,
                ),
            forall|i: int| 0 <= i < res@.len() ==> cells((#[trigger] res@[i]).1).subset_of(goal),
        decreases positions.len() - k,
    {
        let p: Position = positions[k];
        proof {
            lemma_placements_fit(piece@, k as int);
        }
        let arr: PuzzArray = piece_to_matrix(piece, &p);
        let non_overlap: PuzzArray = target.and(&arr).xor(&arr);
        let inside: bool = non_overlap.not_any();
        assert(inside == cells(arr).subset_of(goal)) by {
            if !cells(arr).subset_of(goal) {
                let index = choose|index: int|
                    cells(arr).contains(index) && !goal.contains(index);
                assert(cells(non_overlap).contains(index));
            }
        }
        let ghost before = res@;
        let mut kept: bool = false;
        if inside {
            let mut already_added: bool = false;
            let mut j: usize = 0;
            while j < res.len()
                invariant_except_break
                    !already_added,
                invariant
                    j <= res.len(),
                    res@ == before,
                    forall|i: int| 0 <= i < j ==> cells((#[trigger] res@[i]).1) != cells(arr),
                ensures
                    already_added == exists|i: int|
                        0 <= i < res@.len() && cells((#[trigger] res@[i]).1) == cells(arr),
                decreases res.len() - j,
            {
                if arr.same(&res[j].1) {
                    already_added = true;
                    break ;
                }
                j += 1;
            }
            if !already_added {
                res.push((p, arr));
                kept = true;
            }
        }
        proof {
            let n = k as int;
            let found = candidates_among(piece@, goal, n);
            lemma_candidates_sound(piece@, goal, n);
            if kept {
                // an earlier placement with the same cells would have a
                // candidate with these cells among those kept before
                assert forall|j: int| 0 <= j < n implies #[trigger] pattern(piece@, j) != pattern(
                    piece@,
                    n,
                ) by {
                    if pattern(piece@, j) == pattern(piece@, n) {
                        lemma_candidates_complete(piece@, goal, n, j);
                    }
                }
            } else if inside {
                // a candidate kept before occupies the same cells, and it is
                // an earlier placement
                let i = choose|i: int|
                    0 <= i < before.len() && cells((#[trigger] before[i]).1) == cells(arr);
                assert(kept_among(piece@, goal, n, found[i]));
                let j = choose|j: int|
                    0 <= j < n && #[trigger] keeps(piece@, goal, j) && placements(piece@)[j]
                        == found[i];
                assert(pattern(piece@, j) == pattern(piece@, n));
            }
        }
        k += 1;
    }
    proof {
        lemma_candidates_sound(piece@, goal, k as int);
        assert forall|i: int, j: int| 0 <= i < j < res@.len() implies cells((#[trigger] res@[i]).1)
            != cells((#[trigger] res@[j]).1) by {
            let found = candidates_among(piece@, goal, k as int);
            assert(found[i] == res@[i].0 && found[j] == res@[j].0);
        }
    }
    res
}

} // verus!
