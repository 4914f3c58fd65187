//! The backtracking search: a depth-first walk over the candidate lists, one
//! level per piece, that lists every assembly.

use crate::geometry::{
    fits, identity, in_depth, occupied, piece_to_matrix, Coord, Piece, Position,
};
use crate::placement::{get_matrices_for_piece, positions_of};
use crate::search::{
    apart, assemblies, assembly_of, candidate_lists, cells_of, filled, in_order,
    lemma_assemblies_within_target, lemma_solutions_valid, shapes, solutions, solutions_from,
    FIRST_TWIN, SECOND_TWIN,
};
use crate::volume::{cells, PuzzArray};
use vstd::prelude::*;

verus! {

/// What is still to be listed once the candidates after `chosen.last()` have
/// been tried at every level of `chosen`, deepest level first.
spec fn unfinished(
    pieces: Seq<Seq<Coord>>,
    lists: Seq<Seq<Position>>,
    must: Set<int>,
    chosen: Seq<int>,
) -> Seq<Seq<int>>
    decreases chosen.len(),
{
    if chosen.len() == 0 {
        Seq::empty()
    } else {
        solutions_from(pieces, lists, must, chosen.drop_last(), chosen.last() + 1) + unfinished(
            pieces,
            lists,
            must,
            chosen.drop_last(),
        )
    }
}

/// What the walk has still to list when it stands behind the choices `chosen`
/// and is about to try the candidate numbered `from`.
spec fn pending(
    pieces: Seq<Seq<Coord>>,
    lists: Seq<Seq<Position>>,
    must: Set<int>,
    chosen: Seq<int>,
    from: int,
) -> Seq<Seq<int>> {
    solutions_from(pieces, lists, must, chosen, from) + unfinished(pieces, lists, must, chosen)
}

/// The candidate numbers of all levels, as integers.
spec fn numbers(indices: Seq<usize>) -> Seq<int> {
    Seq::new(indices.len(), |i: int| indices[i] as int)
}

/// The number of choices for the levels below `level`, counting for each
/// level one more than its candidates.
spec fn weight(lens: Seq<int>, level: int) -> int
    decreases lens.len() - level,
{
    if level + 1 >= lens.len() {
        1
    } else {
        (lens[level + 1] + 1) * weight(lens, level + 1)
    }
}

/// A bound on the steps that the walk has still to take from `level` down,
/// when its candidate numbers are `at`.
spec fn remaining(lens: Seq<int>, at: Seq<int>, level: int) -> int
    decreases lens.len() - level,
{
    if level >= lens.len() {
        0
    } else {
        (lens[level] - at[level]) * weight(lens, level) + remaining(lens, at, level + 1)
    }
}

/// Every level has a weight of 1 or more.
proof fn lemma_weight_positive(lens: Seq<int>, level: int)
    requires
        forall|j: int| 0 <= j < lens.len() ==> lens[j] >= 0,
        0 <= level,
    ensures
        weight(lens, level) >= 1,
    decreases lens.len() - level,
{
    if level + 1 < lens.len() {
        lemma_weight_positive(lens, level + 1);
        let w = weight(lens, level + 1);
        let a = lens[level + 1];
        assert((a + 1) * w >= 1) by (nonlinear_arith)
            requires
                a >= 0,
                w >= 1,
        ;
    }
}

/// While no candidate number is beyond the end of its list, the bound is not
/// negative.
proof fn lemma_remaining_bounded(lens: Seq<int>, at: Seq<int>, level: int)
    requires
        at.len() == lens.len(),
        forall|j: int| 0 <= j < lens.len() ==> 0 <= #[trigger] at[j] <= lens[j],
        0 <= level,
    ensures
        remaining(lens, at, level) >= 0,
    decreases lens.len() - level,
{
    if level < lens.len() {
        assert forall|j: int| 0 <= j < lens.len() implies lens[j] >= 0 by {
            assert(0 <= at[j] <= lens[j]);
        }
        lemma_remaining_bounded(lens, at, level + 1);
        lemma_weight_positive(lens, level);
        let w = weight(lens, level);
        let d = lens[level] - at[level];
        assert(d * w >= 0) by (nonlinear_arith)
            requires
                d >= 0,
                w >= 1,
        ;
    }
}

/// Changing the candidate number of level `c` to `v` changes the bound by the
/// weight of that level for every candidate gained or lost.
proof fn lemma_remaining_update(lens: Seq<int>, at: Seq<int>, c: int, v: int, level: int)
    requires
        at.len() == lens.len(),
        0 <= level,
        0 <= c < lens.len(),
    ensures
        level <= c ==> remaining(lens, at.update(c, v), level) == remaining(lens, at, level)
            + (at[c] - v) * weight(lens, c),
        level > c ==> remaining(lens, at.update(c, v), level) == remaining(lens, at, level),
    decreases lens.len() - level,
{
    if level < lens.len() {
        lemma_remaining_update(lens, at, c, v, level + 1);
        let w = weight(lens, level);
        if level == c {
            assert((lens[c] - v) * w == (lens[c] - at[c]) * w + (at[c] - v) * w)
                by (nonlinear_arith);
        }
    }
}

/// Going back from an exhausted level `c` to the next candidate of the level
/// above lowers the bound.
proof fn lemma_remaining_back(lens: Seq<int>, at: Seq<int>, c: int)
    requires
        at.len() == lens.len(),
        forall|j: int| 0 <= j < lens.len() ==> lens[j] >= 0,
        0 < c < lens.len(),
        at[c] == lens[c],
    ensures
        remaining(lens, at.update(c, 0).update(c - 1, at[c - 1] + 1), 0) < remaining(lens, at, 0),
{
    let reset = at.update(c, 0);
    lemma_remaining_update(lens, at, c, 0, 0);
    lemma_remaining_update(lens, reset, c - 1, at[c - 1] + 1, 0);
    lemma_weight_positive(lens, c);
    let w = weight(lens, c);
    let a = lens[c];
    assert(a * w - (a + 1) * w == -w) by (nonlinear_arith);
    assert((reset[c - 1] - (at[c - 1] + 1)) * weight(lens, c - 1) == -((a + 1) * w))
        by (nonlinear_arith)
        requires
            reset[c - 1] - (at[c - 1] + 1) == -1,
            weight(lens, c - 1) == (a + 1) * w,
    ;
}

/// Going on to the next candidate of level `c` lowers the bound.
proof fn lemma_remaining_next(lens: Seq<int>, at: Seq<int>, c: int)
    requires
        at.len() == lens.len(),
        forall|j: int| 0 <= j < lens.len() ==> lens[j] >= 0,
        0 <= c < lens.len(),
    ensures
        remaining(lens, at.update(c, at[c] + 1), 0) < remaining(lens, at, 0),
{
    lemma_remaining_update(lens, at, c, at[c] + 1, 0);
    lemma_weight_positive(lens, c);
    let w = weight(lens, c);
    assert((at[c] - (at[c] + 1)) * w == -w) by (nonlinear_arith);
}

/// The cells that the placed pieces fill are those that all but the last fill,
/// and those of the last.
proof fn lemma_filled_last(pieces: Seq<Seq<Coord>>, placed: Seq<Position>)
    requires
        placed.len() > 0,
    ensures
        filled(pieces, placed) == filled(pieces, placed.drop_last()).union(
            cells_of(pieces, placed, placed.len() - 1),
        ),
{
    let front = placed.drop_last();
    let last = placed.len() - 1;
    assert forall|cell: int| filled(pieces, placed).contains(cell) implies filled(
        pieces,
        front,
    ).union(cells_of(pieces, placed, last)).contains(cell) by {
        let i = choose|i: int|
            0 <= i < placed.len() && (#[trigger] cells_of(pieces, placed, i)).contains(cell);
        if i < last {
            assert(cells_of(pieces, front, i).contains(cell));
        }
    }
    assert forall|cell: int|
        filled(pieces, front).union(cells_of(pieces, placed, last)).contains(
            cell,
        ) implies filled(pieces, placed).contains(cell) by {
        if filled(pieces, front).contains(cell) {
            let i = choose|i: int|
                0 <= i < front.len() && (#[trigger] cells_of(pieces, front, i)).contains(cell);
            assert(cells_of(pieces, placed, i).contains(cell));
        }
    }
}

/// What one candidate contributes to what the walk has left to list: nothing
/// if it shares a cell with the pieces chosen before; below the last level,
/// what the walk lists behind it; at the last level, the choice itself if it
/// fills what must be filled with the twins in order.
proof fn lemma_pending_step(
    pieces: Seq<Seq<Coord>>,
    lists: Seq<Seq<Position>>,
    must: Set<int>,
    chosen: Seq<int>,
    from: int,
)
    requires
        chosen.len() < pieces.len(),
        0 <= from < lists[chosen.len() as int].len(),
    ensures
        ({
            let level = chosen.len() as int;
            let next = chosen.push(from);
            let placed = assembly_of(lists, next);
            let onward = pending(pieces, lists, must, chosen, from + 1);
            pending(pieces, lists, must, chosen, from) == if !filled(
                pieces,
                placed.take(level),
            ).disjoint(cells_of(pieces, placed, level)) {
                onward
            } else if level + 1 < pieces.len() {
                pending(pieces, lists, must, next, 0)
            } else if must.subset_of(filled(pieces, placed)) && in_order(next) {
                seq![next] + onward
            } else {
                onward
            }
        }),
{
    assert(chosen.push(from).drop_last() =~= chosen);
}

/// The placements that the candidate numbers `indices` pick from the lists.
fn chosen_positions(lists: &Vec<Vec<(Position, PuzzArray)>>, indices: &Vec<usize>) -> (assembly:
    Vec<Position>)
    requires
        indices@.len() == lists@.len(),
        forall|i: int| 0 <= i < indices@.len() ==> indices@[i] < (#[trigger] lists@[i])@.len(),
    ensures
        assembly@.len() == indices@.len(),
        forall|i: int| 0 <= i < indices@.len() ==> assembly@[i] == lists@[i]@[indices@[i] as int].0,
{
    let mut assembly: Vec<Position> = Vec::new();
    let mut i: usize = 0;
    while i < indices.len()
        invariant
            i <= indices@.len(),
            indices@.len() == lists@.len(),
            forall|k: int| 0 <= k < indices@.len() ==> indices@[k] < (#[trigger] lists@[k])@.len(),
            assembly@.len() == i,
            forall|k: int| 0 <= k < i ==> assembly@[k] == lists@[k]@[indices@[k] as int].0,
        decreases indices.len() - i,
    {
        assembly.push(lists[i][indices[i]].0);
        i += 1;
    }
    assembly
}

/// Lists every way to place all of `pieces` within `target`, one candidate
/// placement each, so that no two pieces share a cell and every cell of
/// `must_fill` is filled.
///
/// The target and the cells to fill are taken where their own frame puts
/// them. They have to lie within the grid, and the pieces within its two
/// layers; [`piece_fits`](crate::geometry::piece_fits) and
/// [`piece_in_depth`](crate::geometry::piece_in_depth) test that.
///
/// The walk goes through the candidate lists of the pieces depth first, one
/// level per piece in the order of `pieces`. A level is exhausted when its
/// candidate number reaches the length of its list: the last candidate of a
/// list is tried like every other, a list of one candidate offers that
/// candidate, and an empty list offers none, so that there is no assembly.
/// Without pieces there is no assembly either.
///
/// An assembly gives the placement of each piece, in the order of `pieces`;
/// the assemblies come in lexicographic order of the candidate numbers. The
/// pieces numbered 3 and 4, counting from 0, are taken to be twins: of two
/// assemblies in which they have swapped their placements, only the one is
/// listed in which piece 3 has the smaller candidate number. Fewer than five
/// pieces have no twins among them.
pub fn find_assemblies(pieces: &Vec<Piece>, target: &Piece, must_fill: &Piece) -> (result: Vec<
    Vec<Position>,
>)
    requires
        fits(target@, identity()),
        fits(must_fill@, identity()),
        forall|i: int| 0 <= i < pieces@.len() ==> in_depth((#[trigger] pieces@[i])@),
    ensures
        result@.len() == assemblies(shapes(pieces@), target@, must_fill@).len(),
        forall|k: int|
            0 <= k < result@.len() ==> (#[trigger] result@[k])@ == assemblies(
                shapes(pieces@),
                target@,
                must_fill@,
            )[k],
        forall|k: int|
            0 <= k < result@.len() ==> (#[trigger] result@[k])@.len() == pieces@.len(),
        forall|k: int| 0 <= k < result@.len() ==> apart(shapes(pieces@), (#[trigger] result@[k])@),
        forall|k: int|
            0 <= k < result@.len() ==> occupied(must_fill@, identity()).subset_of(
                filled(shapes(pieces@), (#[trigger] result@[k])@),
            ),
        forall|k: int, i: int|
            0 <= k < result@.len() && 0 <= i < pieces@.len() ==> (#[trigger] cells_of(
                shapes(pieces@),
                result@[k]@,
                i,
            )).subset_of(occupied(target@, identity())),
{
    let target_matrix: PuzzArray = piece_to_matrix(
        target,
        &Position { x: 0, y: 0, flipped: false },
    );
    let must_fill_matrix: PuzzArray = piece_to_matrix(
        must_fill,
        &Position { x: 0, y: 0, flipped: false },
    );
    let ghost shape = shapes(pieces@);
    let ghost must = occupied(must_fill@, identity());
    let ghost lists = candidate_lists(shape, occupied(target@, identity()));
    let ghost total = solutions(shape, lists, must);
    let num_pieces: usize = pieces.len();

    let mut pieces_positions: Vec<Vec<(Position, PuzzArray)>> = Vec::new();
    let mut p: usize = 0;
    while p < num_pieces
        invariant
            p <= num_pieces,
            num_pieces == pieces@.len(),
            shape == shapes(pieces@),
            lists == candidate_lists(shape, occupied(target@, identity())),
            cells(target_matrix) == occupied(target@, identity()),
            forall|i: int| 0 <= i < pieces@.len() ==> in_depth((#[trigger] pieces@[i])@),
            pieces_positions@.len() == p,
            forall|i: int|
                0 <= i < p ==> positions_of((#[trigger] pieces_positions@[i])@) == lists[i],
            forall|i: int, k: int|
                0 <= i < p && 0 <= k < pieces_positions@[i]@.len() ==> cells(
                    (#[trigger] pieces_positions@[i]@[k]).1,
                ) == occupied(shape[i], pieces_positions@[i]@[k].0),
        decreases num_pieces - p,
    {
        let pos_arr_list: Vec<(Position, PuzzArray)> = get_matrices_for_piece(
            &pieces[p],
            &target_matrix,
        );
        pieces_positions.push(pos_arr_list);
        p += 1;
    }

    let mut result: Vec<Vec<Position>> = Vec::new();
    if num_pieces == 0 {
        return result;
    }
    let mut puzz_arrays: Vec<PuzzArray> = Vec::new();
    let mut position_indices: Vec<usize> = Vec::new();
    let mut q: usize = 0;
    while q < num_pieces
        invariant
            q <= num_pieces,
            puzz_arrays@.len() == q,
            position_indices@.len() == q,
            forall|j: int| 0 <= j < q ==> position_indices@[j] == 0,
        decreases num_pieces - q,
    {
        puzz_arrays.push(PuzzArray::zero());
        position_indices.push(0);
        q += 1;
    }
    let mut curr_piece_index: usize = 0;
    let ghost lens = Seq::new(num_pieces as nat, |i: int| lists[i].len() as int);
    let ghost mut chosen: Seq<int> = Seq::empty();
    let ghost mut found: Seq<Seq<int>> = Seq::empty();

    loop
        invariant
            num_pieces == pieces@.len(),
            num_pieces > 0,
            shape == shapes(pieces@),
            shape.len() == num_pieces,
            lists.len() == num_pieces,
            lens == Seq::new(num_pieces as nat, |i: int| lists[i].len() as int),
            total == solutions(shape, lists, must),
            cells(must_fill_matrix) == must,
            pieces_positions@.len() == num_pieces,
            puzz_arrays@.len() == num_pieces,
            position_indices@.len() == num_pieces,
            forall|i: int|
                0 <= i < num_pieces ==> positions_of((#[trigger] pieces_positions@[i])@)
                    == lists[i],
            forall|i: int, k: int|
                0 <= i < num_pieces && 0 <= k < pieces_positions@[i]@.len() ==> cells(
                    (#[trigger] pieces_positions@[i]@[k]).1,
                ) == occupied(shape[i], pieces_positions@[i]@[k].0),
            curr_piece_index < num_pieces,
            chosen.len() == curr_piece_index,
            forall|j: int|
                0 <= j < curr_piece_index ==> chosen[j] == #[trigger] position_indices@[j]
                    && position_indices@[j] < lists[j].len(),
            position_indices@[curr_piece_index as int] <= lists[curr_piece_index as int].len(),
            forall|j: int|
                curr_piece_index < j < num_pieces ==> #[trigger] position_indices@[j] == 0,
            forall|j: int|
                0 <= j < curr_piece_index ==> cells(#[trigger] puzz_arrays@[j]) == filled(
                    shape,
                    assembly_of(lists, chosen).take(j + 1),
                ),
            found + pending(
                shape,
                lists,
                must,
                chosen,
                position_indices@[curr_piece_index as int] as int,
            ) == total,
            result@.len() == found.len(),
            forall|k: int|
                0 <= k < result@.len() ==> (#[trigger] result@[k])@ == assembly_of(lists, found[k]),
        ensures
            found == total,
            result@.len() == found.len(),
            forall|k: int|
                0 <= k < result@.len() ==> (#[trigger] result@[k])@ == assembly_of(lists, found[k]),
        decreases remaining(lens, numbers(position_indices@), 0), num_pieces - curr_piece_index,
    {
        let curr_position: usize = position_indices[curr_piece_index];
        let ghost at = numbers(position_indices@);
        let ghost level = curr_piece_index as int;

        if curr_position == pieces_positions[curr_piece_index].len() {
            // every candidate of this piece has been tried
            if curr_piece_index == 0 {
                break ;
            } else {
                let ghost before = position_indices@;
                let mut idx: usize = curr_piece_index;
                while idx < num_pieces
                    invariant
                        curr_piece_index <= idx <= num_pieces,
                        level == curr_piece_index,
                        position_indices@.len() == num_pieces,
                        before.len() == num_pieces,
                        forall|j: int|
                            0 <= j < num_pieces ==> #[trigger] position_indices@[j] == (if level
                                <= j < idx {
                                0
                            } else {
                                before[j]
                            }),
                    decreases num_pieces - idx,
                {
                    position_indices.set(idx, 0);
                    idx += 1;
                }
                assert(pieces_positions@[level - 1]@.len() == pieces_positions@[level - 1].len());
                let above: usize = position_indices[curr_piece_index - 1];
                position_indices.set(curr_piece_index - 1, above + 1);
                curr_piece_index -= 1;
                proof {
                    lemma_remaining_back(lens, at, level);
                    assert(numbers(position_indices@) =~= at.update(level, 0).update(
                        level - 1,
                        at[level - 1] + 1,
                    ));
                    lemma_remaining_bounded(lens, numbers(position_indices@), 0);
                    let shorter = chosen.drop_last();
                    assert forall|j: int| 0 <= j < curr_piece_index implies cells(
                        #[trigger] puzz_arrays@[j],
                    ) == filled(shape, assembly_of(lists, shorter).take(j + 1)) by {
                        assert(assembly_of(lists, shorter).take(j + 1) =~= assembly_of(
                            lists,
                            chosen,
                        ).take(j + 1));
                    }
                    chosen = shorter;
                }
                continue ;
            }
        }
        let ghost next = chosen.push(curr_position as int);
        let ghost placed = assembly_of(lists, next);
        let piece_array: PuzzArray = pieces_positions[curr_piece_index][curr_position].1;
        proof {
            lemma_pending_step(shape, lists, must, chosen, curr_position as int);
            lemma_filled_last(shape, placed);
            assert(placed.take(level) =~= assembly_of(lists, chosen).take(level));
        }
        if curr_piece_index == 0 {
            // nothing is placed yet: the piece fills the empty grid
            puzz_arrays.set(0, PuzzArray::zero().or(&piece_array));
        } else {
            // not the first piece
            let prev_array: PuzzArray = puzz_arrays[curr_piece_index - 1];
            let overlaps: bool = prev_array.and(&piece_array).any();
            proof {
                if !overlaps {
                    assert forall|index: int| cells(prev_array).contains(index) implies !cells(
                        piece_array,
                    ).contains(index) by {
                        if cells(piece_array).contains(index) {
                            assert(cells(prev_array).intersect(cells(piece_array)).contains(index));
                        }
                    }
                }
            }
            if overlaps {
                position_indices.set(curr_piece_index, curr_position + 1);
                proof {
                    lemma_remaining_next(lens, at, level);
                    assert(numbers(position_indices@) =~= at.update(level, at[level] + 1));
                    lemma_remaining_bounded(lens, numbers(position_indices@), 0);
                }
                continue ;
            } else {
                puzz_arrays.set(curr_piece_index, prev_array.or(&piece_array));
            }
        }
        proof {
            assert forall|j: int| 0 <= j < curr_piece_index + 1 implies cells(
                #[trigger] puzz_arrays@[j],
            ) == filled(shape, assembly_of(lists, next).take(j + 1)) by {
                if j < level {
                    assert(assembly_of(lists, next).take(j + 1) =~= assembly_of(
                        lists,
                        chosen,
                    ).take(j + 1));
                } else {
                    assert(placed.take(level + 1) =~= placed);
                }
            }
        }
        if curr_piece_index == num_pieces - 1 {
            // every piece is placed: is every cell filled that must be?
            let not_filled: PuzzArray = puzz_arrays[curr_piece_index].and(&must_fill_matrix).xor(
                &must_fill_matrix,
            );
            let covers: bool = not_filled.not_any();
            proof {
                if !must.subset_of(filled(shape, placed)) {
                    let index = choose|index: int|
                        must.contains(index) && !filled(shape, placed).contains(index);
                    assert(cells(not_filled).contains(index));
                }
            }
            if covers {
                let twins_in_order: bool = num_pieces <= SECOND_TWIN
                    || position_indices[FIRST_TWIN] < position_indices[SECOND_TWIN];
                if twins_in_order {
                    let assembly: Vec<Position> = chosen_positions(
                        &pieces_positions,
                        &position_indices,
                    );
                    result.push(assembly);
                    proof {
                        found = found.push(next);
                    }
                }
            }
            position_indices.set(curr_piece_index, curr_position + 1);
            proof {
                lemma_remaining_next(lens, at, level);
                assert(numbers(position_indices@) =~= at.update(level, at[level] + 1));
                lemma_remaining_bounded(lens, numbers(position_indices@), 0);
            }
        } else {
            curr_piece_index += 1;
            proof {
                chosen = next;
            }
        }
    }

    proof {
        assert forall|k: int| 0 <= k < result@.len() implies (#[trigger] result@[k])@.len()
            == pieces@.len() && apart(shape, result@[k]@) && must.subset_of(
            filled(shape, result@[k]@),
        ) by {
            lemma_solutions_valid(shape, lists, must, k);
        }
        assert forall|k: int, i: int|
            0 <= k < result@.len() && 0 <= i < pieces@.len() implies (#[trigger] cells_of(
            shape,
            result@[k]@,
            i,
        )).subset_of(occupied(target@, identity())) by {
            lemma_assemblies_within_target(shape, target@, must_fill@, k, i);
        }
    }
    result
}

} // verus!
