//! The assemblies of a set of pieces: what they are, and the laws they obey.
//!
//! A *choice* picks one candidate placement for every piece, by its number in
//! the piece's candidate list. The solutions are the choices in which no two
//! pieces share a cell, the pieces together fill every cell that must be
//! filled, and the two twin pieces come in their canonical order. They are
//! listed in lexicographic order of the choices.

use crate::geometry::{identity, max_y, occupied, Coord, Position};
use crate::placement::{
    candidates, lemma_candidate_within_target, lemma_tall_piece_no_candidate,
};
use vstd::prelude::*;

verus! {

/// The first of the two pieces that are taken to have the same shape.
pub const FIRST_TWIN: usize = 3;

/// The second of the two pieces that are taken to have the same shape.
pub const SECOND_TWIN: usize = 4;

/// The shapes of a list of pieces.
pub open spec fn shapes(pieces: Seq<Vec<Coord>>) -> Seq<Seq<Coord>> {
    Seq::new(pieces.len(), |i: int| pieces[i]@)
}

/// The candidate placements of every piece for a target.
pub open spec fn candidate_lists(pieces: Seq<Seq<Coord>>, target: Set<int>) -> Seq<Seq<Position>> {
    Seq::new(pieces.len(), |i: int| candidates(pieces[i], target))
}

/// The placements that a choice picks from the candidate lists.
pub open spec fn assembly_of(lists: Seq<Seq<Position>>, choice: Seq<int>) -> Seq<Position> {
    Seq::new(choice.len(), |i: int| lists[i][choice[i]])
}

/// The grid cells that piece `i` occupies when the pieces are placed as
/// `placed` says.
pub open spec fn cells_of(pieces: Seq<Seq<Coord>>, placed: Seq<Position>, i: int) -> Set<int> {
    occupied(pieces[i], placed[i])
}

/// The grid cells that the placed pieces occupy together.
pub open spec fn filled(pieces: Seq<Seq<Coord>>, placed: Seq<Position>) -> Set<int> {
    Set::new(
        |cell: int|
            exists|i: int|
                0 <= i < placed.len() && (#[trigger] cells_of(pieces, placed, i)).contains(cell),
    )
}

/// No two of the placed pieces share a grid cell.
pub open spec fn apart(pieces: Seq<Seq<Coord>>, placed: Seq<Position>) -> bool {
    forall|i: int, j: int|
        0 <= i < j < placed.len() ==> (#[trigger] cells_of(pieces, placed, i)).disjoint(
            #[trigger] cells_of(pieces, placed, j),
        )
}

/// The canonical order of the twin pieces: where both are chosen, the first
/// twin has the smaller candidate number. Swapping the placements of two
/// pieces of one shape gives the same assembly, and this keeps one of the two.
pub open spec fn in_order(choice: Seq<int>) -> bool {
    choice.len() > SECOND_TWIN ==> choice[FIRST_TWIN as int] < choice[SECOND_TWIN as int]
}

/// A choice is admissible: it picks a candidate for every piece, no two
/// pieces share a cell, and every cell of `must` is filled.
pub open spec fn admissible(
    pieces: Seq<Seq<Coord>>,
    lists: Seq<Seq<Position>>,
    must: Set<int>,
    choice: Seq<int>,
) -> bool {
    &&& choice.len() == pieces.len()
    &&& forall|i: int| 0 <= i < choice.len() ==> 0 <= #[trigger] choice[i] < lists[i].len()
    &&& apart(pieces, assembly_of(lists, choice))
    &&& must.subset_of(filled(pieces, assembly_of(lists, choice)))
}

/// A choice is a solution: it is admissible, and the twins are in order.
pub open spec fn valid(
    pieces: Seq<Seq<Coord>>,
    lists: Seq<Seq<Position>>,
    must: Set<int>,
    choice: Seq<int>,
) -> bool {
    admissible(pieces, lists, must, choice) && in_order(choice)
}

/// The choice in which the twins have swapped their candidates.
pub open spec fn swapped(choice: Seq<int>) -> Seq<int> {
    choice.update(FIRST_TWIN as int, choice[SECOND_TWIN as int]).update(
        SECOND_TWIN as int,
        choice[FIRST_TWIN as int],
    )
}

/// `a` comes before `b` in lexicographic order.
pub open spec fn lex_less(a: Seq<int>, b: Seq<int>) -> bool {
    exists|p: int|
        0 <= p < a.len() && p < b.len() && #[trigger] a.take(p) == b.take(p) && a[p] < b[p]
}

/// The solutions that begin with the choices `chosen` and go on with a
/// candidate numbered `from` or more, in lexicographic order. It is assumed
/// that the pieces chosen so far share no cell.
pub open spec fn solutions_from(
    pieces: Seq<Seq<Coord>>,
    lists: Seq<Seq<Position>>,
    must: Set<int>,
    chosen: Seq<int>,
    from: int,
) -> Seq<Seq<int>>
    decreases pieces.len() - chosen.len(), lists[chosen.len() as int].len() - from,
{
    let level = chosen.len() as int;
    if level >= pieces.len() || from < 0 || from >= lists[level].len() {
        Seq::empty()
    } else {
        let next = chosen.push(from);
        let placed = assembly_of(lists, next);
        let with_this = if !filled(pieces, placed.take(level)).disjoint(
            cells_of(pieces, placed, level),
        ) {
            Seq::empty()
        } else if level + 1 < pieces.len() {
            solutions_from(pieces, lists, must, next, 0)
        } else if must.subset_of(filled(pieces, placed)) && in_order(next) {
            seq![next]
        } else {
            Seq::empty()
        };
        with_this + solutions_from(pieces, lists, must, chosen, from + 1)
    }
}

/// All solutions, in lexicographic order.
pub open spec fn solutions(
    pieces: Seq<Seq<Coord>>,
    lists: Seq<Seq<Position>>,
    must: Set<int>,
) -> Seq<Seq<int>> {
    solutions_from(pieces, lists, must, Seq::empty(), 0)
}

/// The assemblies of `pieces` into `target` that fill `must_fill`: the
/// placements of every solution, the solutions taken in lexicographic order of
/// their candidate numbers.
pub open spec fn assemblies(
    pieces: Seq<Seq<Coord>>,
    target: Seq<Coord>,
    must_fill: Seq<Coord>,
) -> Seq<Seq<Position>> {
    let lists = candidate_lists(pieces, occupied(target, identity()));
    let found = solutions(pieces, lists, occupied(must_fill, identity()));
    Seq::new(found.len(), |k: int| assembly_of(lists, found[k]))
}

/// Piece `j` of the choice `s` is a candidate that shares no cell with the
/// pieces before it.
pub open spec fn step_ok(
    pieces: Seq<Seq<Coord>>,
    lists: Seq<Seq<Position>>,
    s: Seq<int>,
    j: int,
) -> bool {
    &&& 0 <= s[j] < lists[j].len()
    &&& filled(pieces, assembly_of(lists, s).take(j)).disjoint(
        cells_of(pieces, assembly_of(lists, s), j),
    )
}

/// The choice `s` is one that `solutions_from(.., chosen, from)` has to list:
/// it begins with `chosen`, goes on with a candidate numbered `from` or more,
/// every piece from there on is a candidate that shares no cell with the
/// pieces before it, all of `must` is filled, and the twins are in order.
pub open spec fn reaches(
    pieces: Seq<Seq<Coord>>,
    lists: Seq<Seq<Position>>,
    must: Set<int>,
    chosen: Seq<int>,
    from: int,
    s: Seq<int>,
) -> bool {
    &&& s.len() == pieces.len()
    &&& chosen.len() < s.len()
    &&& s.take(chosen.len() as int) == chosen
    &&& s[chosen.len() as int] >= from
    &&& forall|j: int| chosen.len() <= j < s.len() ==> #[trigger] step_ok(pieces, lists, s, j)
    &&& must.subset_of(filled(pieces, assembly_of(lists, s)))
    &&& in_order(s)
}

/// Whatever `solutions_from` lists is a choice that it has to list.
pub proof fn lemma_solutions_from_sound(
    pieces: Seq<Seq<Coord>>,
    lists: Seq<Seq<Position>>,
    must: Set<int>,
    chosen: Seq<int>,
    from: int,
)
    ensures
        forall|k: int|
            0 <= k < solutions_from(pieces, lists, must, chosen, from).len() ==> reaches(
                pieces,
                lists,
                must,
                chosen,
                from,
                #[trigger] solutions_from(pieces, lists, must, chosen, from)[k],
            ),
    decreases pieces.len() - chosen.len(), lists[chosen.len() as int].len() - from,
{
    let level = chosen.len() as int;
    let all = solutions_from(pieces, lists, must, chosen, from);
    if level >= pieces.len() || from < 0 || from >= lists[level].len() {
    } else {
        let next = chosen.push(from);
        let placed = assembly_of(lists, next);
        let later = solutions_from(pieces, lists, must, chosen, from + 1);
        lemma_solutions_from_sound(pieces, lists, must, chosen, from + 1);
        if !filled(pieces, placed.take(level)).disjoint(cells_of(pieces, placed, level)) {
            assert(all =~= later);
        } else if level + 1 < pieces.len() {
            let deeper = solutions_from(pieces, lists, must, next, 0);
            lemma_solutions_from_sound(pieces, lists, must, next, 0);
            assert(all =~= deeper + later);
            assert forall|k: int| 0 <= k < all.len() implies reaches(
                pieces,
                lists,
                must,
                chosen,
                from,
                #[trigger] all[k],
            ) by {
                if k < deeper.len() {
                    let s = deeper[k];
                    assert(all[k] == s);
                    assert(reaches(pieces, lists, must, next, 0, s));
                    lemma_begins_with(pieces, lists, chosen, from, s);
                } else {
                    assert(all[k] == later[k - deeper.len()]);
                }
            }
        } else if must.subset_of(filled(pieces, placed)) && in_order(next) {
            assert(all =~= seq![next] + later);
            assert forall|k: int| 0 <= k < all.len() implies reaches(
                pieces,
                lists,
                must,
                chosen,
                from,
                #[trigger] all[k],
            ) by {
                if k == 0 {
                    assert(all[k] == next);
                    assert(next.take(level + 1) =~= next);
                    lemma_begins_with(pieces, lists, chosen, from, next);
                } else {
                    assert(all[k] == later[k - 1]);
                }
            }
        } else {
            assert(all =~= later);
        }
    }
}

/// A choice that begins with `chosen` and the candidate `from`, which shares
/// no cell with the pieces chosen before it, begins with `chosen`, and its
/// piece at that level is in order.
proof fn lemma_begins_with(
    pieces: Seq<Seq<Coord>>,
    lists: Seq<Seq<Position>>,
    chosen: Seq<int>,
    from: int,
    s: Seq<int>,
)
    requires
        chosen.len() < s.len(),
        s.take(chosen.len() as int + 1) == chosen.push(from),
        0 <= from < lists[chosen.len() as int].len(),
        filled(pieces, assembly_of(lists, chosen.push(from)).take(chosen.len() as int)).disjoint(
            cells_of(pieces, assembly_of(lists, chosen.push(from)), chosen.len() as int),
        ),
    ensures
        s.take(chosen.len() as int) == chosen,
        s[chosen.len() as int] == from,
        step_ok(pieces, lists, s, chosen.len() as int),
{
    let level = chosen.len() as int;
    let next = chosen.push(from);
    assert(s.take(level + 1)[level] == s[level]);
    assert(s.take(level) =~= s.take(level + 1).take(level));
    assert(next.take(level) =~= chosen);
    assert(assembly_of(lists, s).take(level) =~= assembly_of(lists, next).take(level)) by {
        assert forall|i: int| 0 <= i < level implies assembly_of(lists, s)[i] == assembly_of(
            lists,
            next,
        )[i] by {
            assert(s.take(level + 1)[i] == s[i]);
        }
    }
}

/// Whatever `solutions_from` has to list, it lists.
pub proof fn lemma_solutions_from_complete(
    pieces: Seq<Seq<Coord>>,
    lists: Seq<Seq<Position>>,
    must: Set<int>,
    chosen: Seq<int>,
    from: int,
    s: Seq<int>,
)
    requires
        0 <= from,
        reaches(pieces, lists, must, chosen, from, s),
    ensures
        solutions_from(pieces, lists, must, chosen, from).contains(s),
    decreases pieces.len() - chosen.len(), lists[chosen.len() as int].len() - from,
{
    let level = chosen.len() as int;
    let all = solutions_from(pieces, lists, must, chosen, from);
    let next = chosen.push(from);
    let placed = assembly_of(lists, next);
    let later = solutions_from(pieces, lists, must, chosen, from + 1);
    assert(step_ok(pieces, lists, s, level));
    if s[level] > from {
        lemma_solutions_from_complete(pieces, lists, must, chosen, from + 1, s);
        let k = choose|k: int| 0 <= k < later.len() && later[k] == s;
        let with_this = all.subrange(0, all.len() - later.len());
        assert(all =~= with_this + later);
        assert(all[with_this.len() + k] == s);
    } else {
        assert(s.take(level + 1) =~= next);
        assert(assembly_of(lists, s).take(level) =~= placed.take(level));
        assert(cells_of(pieces, assembly_of(lists, s), level) == cells_of(pieces, placed, level));
        if level + 1 < pieces.len() {
            let deeper = solutions_from(pieces, lists, must, next, 0);
            assert(step_ok(pieces, lists, s, level + 1));
            lemma_solutions_from_complete(pieces, lists, must, next, 0, s);
            let k = choose|k: int| 0 <= k < deeper.len() && deeper[k] == s;
            assert(all =~= deeper + later);
            assert(all[k] == s);
        } else {
            assert(s =~= next);
            assert(all =~= seq![next] + later);
            assert(all[0] == s);
        }
    }
}

/// `solutions_from` lists its choices in strictly ascending lexicographic
/// order, so none of them twice.
pub proof fn lemma_solutions_from_ascending(
    pieces: Seq<Seq<Coord>>,
    lists: Seq<Seq<Position>>,
    must: Set<int>,
    chosen: Seq<int>,
    from: int,
)
    ensures
        forall|k: int, l: int|
            0 <= k < l < solutions_from(pieces, lists, must, chosen, from).len() ==> lex_less(
                #[trigger] solutions_from(pieces, lists, must, chosen, from)[k],
                #[trigger] solutions_from(pieces, lists, must, chosen, from)[l],
            ),
    decreases pieces.len() - chosen.len(), lists[chosen.len() as int].len() - from,
{
    let level = chosen.len() as int;
    let all = solutions_from(pieces, lists, must, chosen, from);
    if level >= pieces.len() || from < 0 || from >= lists[level].len() {
    } else {
        let next = chosen.push(from);
        let later = solutions_from(pieces, lists, must, chosen, from + 1);
        let with_this = all.subrange(0, all.len() - later.len());
        assert(all =~= with_this + later);
        lemma_solutions_from_ascending(pieces, lists, must, chosen, from + 1);
        lemma_solutions_from_sound(pieces, lists, must, chosen, from + 1);
        if with_this.len() > 0 {
            if level + 1 < pieces.len() {
                assert(with_this =~= solutions_from(pieces, lists, must, next, 0));
                lemma_solutions_from_ascending(pieces, lists, must, next, 0);
                lemma_solutions_from_sound(pieces, lists, must, next, 0);
            } else {
                assert(with_this =~= seq![next]);
                assert(next.take(level + 1) =~= next);
            }
        }
        assert forall|k: int, l: int| 0 <= k < l < all.len() implies lex_less(
            #[trigger] all[k],
            #[trigger] all[l],
        ) by {
            if l < with_this.len() {
                assert(all[k] == with_this[k] && all[l] == with_this[l]);
            } else if k >= with_this.len() {
                assert(all[k] == later[k - with_this.len()]);
                assert(all[l] == later[l - with_this.len()]);
            } else {
                let a = all[k];
                let b = all[l];
                assert(a == with_this[k]);
                assert(b == later[l - with_this.len()]);
                assert(reaches(pieces, lists, must, chosen, from + 1, b));
                assert(a.len() > level && a.take(level + 1) == next) by {
                    if level + 1 < pieces.len() {
                        assert(reaches(pieces, lists, must, next, 0, a));
                    }
                }
                assert(a.take(level + 1)[level] == a[level]);
                assert(a.take(level) =~= a.take(level + 1).take(level));
                assert(next.take(level) =~= chosen);
                assert(a.take(level) == b.take(level));
            }
        }
    }
}

/// A choice is a solution exactly if it is one that the search from the start
/// has to list.
pub proof fn lemma_valid_reaches(
    pieces: Seq<Seq<Coord>>,
    lists: Seq<Seq<Position>>,
    must: Set<int>,
    s: Seq<int>,
)
    requires
        pieces.len() > 0,
    ensures
        valid(pieces, lists, must, s) <==> reaches(pieces, lists, must, Seq::empty(), 0, s),
{
    let placed = assembly_of(lists, s);
    if valid(pieces, lists, must, s) {
        assert(s.take(0) =~= Seq::<int>::empty());
        assert forall|j: int| 0 <= j < s.len() implies #[trigger] step_ok(pieces, lists, s, j) by {
            assert forall|cell: int|
                filled(pieces, placed.take(j)).contains(cell) implies !cells_of(
                pieces,
                placed,
                j,
            ).contains(cell) by {
                let i = choose|i: int|
                    0 <= i < placed.take(j).len() && (#[trigger] cells_of(
                        pieces,
                        placed.take(j),
                        i,
                    )).contains(cell);
                assert(placed.take(j)[i] == placed[i]);
                assert(cells_of(pieces, placed, i).disjoint(cells_of(pieces, placed, j)));
            }
        }
    }
    if reaches(pieces, lists, must, Seq::empty(), 0, s) {
        assert forall|i: int| 0 <= i < s.len() implies 0 <= #[trigger] s[i] < lists[i].len() by {
            assert(step_ok(pieces, lists, s, i));
        }
        assert forall|i: int, j: int| 0 <= i < j < placed.len() implies (#[trigger] cells_of(
            pieces,
            placed,
            i,
        )).disjoint(#[trigger] cells_of(pieces, placed, j)) by {
            assert(step_ok(pieces, lists, s, j));
            assert forall|cell: int| cells_of(pieces, placed, i).contains(cell) implies !cells_of(
                pieces,
                placed,
                j,
            ).contains(cell) by {
                assert(placed.take(j)[i] == placed[i]);
                assert(cells_of(pieces, placed.take(j), i).contains(cell));
                assert(filled(pieces, placed.take(j)).contains(cell));
            }
        }
    }
}

/// Every choice that the search lists is a solution.
pub proof fn lemma_solutions_valid(
    pieces: Seq<Seq<Coord>>,
    lists: Seq<Seq<Position>>,
    must: Set<int>,
    k: int,
)
    requires
        0 <= k < solutions(pieces, lists, must).len(),
    ensures
        valid(pieces, lists, must, solutions(pieces, lists, must)[k]),
{
    lemma_solutions_from_sound(pieces, lists, must, Seq::empty(), 0);
    lemma_valid_reaches(pieces, lists, must, solutions(pieces, lists, must)[k]);
}

/// Every solution is listed by the search.
pub proof fn lemma_solutions_exhaustive(
    pieces: Seq<Seq<Coord>>,
    lists: Seq<Seq<Position>>,
    must: Set<int>,
    choice: Seq<int>,
)
    requires
        pieces.len() > 0,
        valid(pieces, lists, must, choice),
    ensures
        solutions(pieces, lists, must).contains(choice),
{
    lemma_valid_reaches(pieces, lists, must, choice);
    lemma_solutions_from_complete(pieces, lists, must, Seq::empty(), 0, choice);
}

/// The search lists a choice exactly if it is a solution.
pub proof fn lemma_listed_iff_valid(
    pieces: Seq<Seq<Coord>>,
    lists: Seq<Seq<Position>>,
    must: Set<int>,
    choice: Seq<int>,
)
    requires
        pieces.len() > 0,
    ensures
        solutions(pieces, lists, must).contains(choice) <==> valid(pieces, lists, must, choice),
{
    if valid(pieces, lists, must, choice) {
        lemma_solutions_exhaustive(pieces, lists, must, choice);
    }
    if solutions(pieces, lists, must).contains(choice) {
        let k = choose|k: int|
            0 <= k < solutions(pieces, lists, must).len() && solutions(pieces, lists, must)[k]
                == choice;
        lemma_solutions_valid(pieces, lists, must, k);
    }
}

/// Where the twins have the same shape and the same candidates, an admissible
/// choice stays admissible when the twins swap their candidates.
pub proof fn lemma_swapped_admissible(
    pieces: Seq<Seq<Coord>>,
    lists: Seq<Seq<Position>>,
    must: Set<int>,
    choice: Seq<int>,
)
    requires
        pieces.len() > SECOND_TWIN,
        pieces[FIRST_TWIN as int] == pieces[SECOND_TWIN as int],
        lists[FIRST_TWIN as int] == lists[SECOND_TWIN as int],
        admissible(pieces, lists, must, choice),
    ensures
        admissible(pieces, lists, must, swapped(choice)),
{
    let other = swapped(choice);
    let placed = assembly_of(lists, choice);
    let moved = assembly_of(lists, other);
    let twin = |i: int|
        if i == FIRST_TWIN {
            SECOND_TWIN as int
        } else if i == SECOND_TWIN {
            FIRST_TWIN as int
        } else {
            i
        };
    assert forall|i: int| 0 <= i < choice.len() implies #[trigger] cells_of(pieces, moved, i)
        == cells_of(pieces, placed, twin(i)) by {
        assert(other[i] == choice[twin(i)]);
    }
    assert forall|i: int| 0 <= i < other.len() implies 0 <= #[trigger] other[i]
        < lists[i].len() by {
        assert(0 <= choice[twin(i)] < lists[twin(i)].len());
    }
    assert forall|i: int, j: int| 0 <= i < j < moved.len() implies (#[trigger] cells_of(
        pieces,
        moved,
        i,
    )).disjoint(#[trigger] cells_of(pieces, moved, j)) by {
        if twin(i) < twin(j) {
            assert(cells_of(pieces, placed, twin(i)).disjoint(cells_of(pieces, placed, twin(j))));
        } else {
            assert(cells_of(pieces, placed, twin(j)).disjoint(cells_of(pieces, placed, twin(i))));
        }
    }
    assert forall|cell: int| filled(pieces, placed).contains(cell) implies filled(
        pieces,
        moved,
    ).contains(cell) by {
        let i = choose|i: int|
            0 <= i < placed.len() && (#[trigger] cells_of(pieces, placed, i)).contains(cell);
        assert(cells_of(pieces, moved, twin(i)).contains(cell));
    }
}

/// Where the twins have the same shape and the same candidates, the search
/// lists one of two admissible choices that differ only in that the twins have
/// swapped their candidates, and not the other.
pub proof fn lemma_twins_listed_once(
    pieces: Seq<Seq<Coord>>,
    lists: Seq<Seq<Position>>,
    must: Set<int>,
    choice: Seq<int>,
)
    requires
        pieces.len() > SECOND_TWIN,
        pieces[FIRST_TWIN as int] == pieces[SECOND_TWIN as int],
        lists[FIRST_TWIN as int] == lists[SECOND_TWIN as int],
        admissible(pieces, lists, must, choice),
        choice[FIRST_TWIN as int] != choice[SECOND_TWIN as int],
    ensures
        solutions(pieces, lists, must).contains(choice) != solutions(
            pieces,
            lists,
            must,
        ).contains(swapped(choice)),
{
    lemma_swapped_admissible(pieces, lists, must, choice);
    lemma_listed_iff_valid(pieces, lists, must, choice);
    lemma_listed_iff_valid(pieces, lists, must, swapped(choice));
}

/// The search lists the solutions in strictly ascending lexicographic order.
pub proof fn lemma_solutions_ascending(
    pieces: Seq<Seq<Coord>>,
    lists: Seq<Seq<Position>>,
    must: Set<int>,
    k: int,
    l: int,
)
    requires
        0 <= k < l < solutions(pieces, lists, must).len(),
    ensures
        lex_less(solutions(pieces, lists, must)[k], solutions(pieces, lists, must)[l]),
{
    lemma_solutions_from_ascending(pieces, lists, must, Seq::empty(), 0);
}

/// Every assembly places every piece, and is the assembly of a solution.
pub proof fn lemma_assemblies_valid(
    pieces: Seq<Seq<Coord>>,
    target: Seq<Coord>,
    must_fill: Seq<Coord>,
    k: int,
)
    requires
        0 <= k < assemblies(pieces, target, must_fill).len(),
    ensures
        ({
            let lists = candidate_lists(pieces, occupied(target, identity()));
            let must = occupied(must_fill, identity());
            let choice = solutions(pieces, lists, must)[k];
            &&& valid(pieces, lists, must, choice)
            &&& assemblies(pieces, target, must_fill)[k] == assembly_of(lists, choice)
            &&& assemblies(pieces, target, must_fill)[k].len() == pieces.len()
        }),
{
    let lists = candidate_lists(pieces, occupied(target, identity()));
    let must = occupied(must_fill, identity());
    lemma_solutions_valid(pieces, lists, must, k);
}

/// In every assembly, no two pieces share a grid cell.
pub proof fn lemma_assemblies_apart(
    pieces: Seq<Seq<Coord>>,
    target: Seq<Coord>,
    must_fill: Seq<Coord>,
    k: int,
    i: int,
    j: int,
)
    requires
        0 <= k < assemblies(pieces, target, must_fill).len(),
        0 <= i < pieces.len(),
        0 <= j < pieces.len(),
        i != j,
    ensures
        occupied(pieces[i], assemblies(pieces, target, must_fill)[k][i]).disjoint(
            occupied(pieces[j], assemblies(pieces, target, must_fill)[k][j]),
        ),
{
    lemma_assemblies_valid(pieces, target, must_fill, k);
    let placed = assemblies(pieces, target, must_fill)[k];
    if i < j {
        assert(cells_of(pieces, placed, i).disjoint(cells_of(pieces, placed, j)));
    } else {
        assert(cells_of(pieces, placed, j).disjoint(cells_of(pieces, placed, i)));
    }
}

/// In every assembly of five pieces or more, the twin pieces are in their
/// canonical order: the first twin takes a candidate with a smaller number
/// than the second.
pub proof fn lemma_assemblies_twins_in_order(
    pieces: Seq<Seq<Coord>>,
    target: Seq<Coord>,
    must_fill: Seq<Coord>,
    k: int,
)
    requires
        0 <= k < assemblies(pieces, target, must_fill).len(),
        pieces.len() > SECOND_TWIN,
    ensures
        ({
            let lists = candidate_lists(pieces, occupied(target, identity()));
            let placed = assemblies(pieces, target, must_fill)[k];
            exists|a: int, b: int|
                0 <= a < b < lists[SECOND_TWIN as int].len() && a < lists[FIRST_TWIN as int].len()
                    && placed[FIRST_TWIN as int] == #[trigger] lists[FIRST_TWIN as int][a]
                    && placed[SECOND_TWIN as int] == #[trigger] lists[SECOND_TWIN as int][b]
        }),
{
    let lists = candidate_lists(pieces, occupied(target, identity()));
    let must = occupied(must_fill, identity());
    let choice = solutions(pieces, lists, must)[k];
    let placed = assemblies(pieces, target, must_fill)[k];
    lemma_assemblies_valid(pieces, target, must_fill, k);
    let a = choice[FIRST_TWIN as int];
    let b = choice[SECOND_TWIN as int];
    assert(placed[FIRST_TWIN as int] == lists[FIRST_TWIN as int][a]);
    assert(placed[SECOND_TWIN as int] == lists[SECOND_TWIN as int][b]);
}

/// In every assembly, every cell that must be filled is occupied by a piece.
pub proof fn lemma_assemblies_cover(
    pieces: Seq<Seq<Coord>>,
    target: Seq<Coord>,
    must_fill: Seq<Coord>,
    k: int,
)
    requires
        0 <= k < assemblies(pieces, target, must_fill).len(),
    ensures
        occupied(must_fill, identity()).subset_of(
            filled(pieces, assemblies(pieces, target, must_fill)[k]),
        ),
{
    lemma_assemblies_valid(pieces, target, must_fill, k);
}

/// In every assembly, every piece lies within the target.
pub proof fn lemma_assemblies_within_target(
    pieces: Seq<Seq<Coord>>,
    target: Seq<Coord>,
    must_fill: Seq<Coord>,
    k: int,
    i: int,
)
    requires
        0 <= k < assemblies(pieces, target, must_fill).len(),
        0 <= i < pieces.len(),
    ensures
        occupied(pieces[i], assemblies(pieces, target, must_fill)[k][i]).subset_of(
            occupied(target, identity()),
        ),
{
    let goal = occupied(target, identity());
    let lists = candidate_lists(pieces, goal);
    let must = occupied(must_fill, identity());
    let choice = solutions(pieces, lists, must)[k];
    lemma_assemblies_valid(pieces, target, must_fill, k);
    assert(0 <= choice[i] < lists[i].len());
    lemma_candidate_within_target(pieces[i], goal, choice[i]);
}

/// Every way to pick a candidate for each piece so that no two pieces share a
/// cell, all that must be filled is filled and the twins are in order is
/// among the assemblies.
pub proof fn lemma_assemblies_exhaustive(
    pieces: Seq<Seq<Coord>>,
    target: Seq<Coord>,
    must_fill: Seq<Coord>,
    choice: Seq<int>,
)
    requires
        pieces.len() > 0,
        valid(
            pieces,
            candidate_lists(pieces, occupied(target, identity())),
            occupied(must_fill, identity()),
            choice,
        ),
    ensures
        assemblies(pieces, target, must_fill).contains(
            assembly_of(candidate_lists(pieces, occupied(target, identity())), choice),
        ),
{
    let lists = candidate_lists(pieces, occupied(target, identity()));
    let must = occupied(must_fill, identity());
    lemma_solutions_exhaustive(pieces, lists, must, choice);
    let found = solutions(pieces, lists, must);
    let k = choose|k: int| 0 <= k < found.len() && found[k] == choice;
    assert(assemblies(pieces, target, must_fill)[k] == assembly_of(lists, choice));
}

/// Where the twins have the same shape, of two admissible choices that differ
/// only in that the twins have swapped their candidates, one is among the
/// solutions whose assemblies are listed, and the other is not.
pub proof fn lemma_assemblies_twins_once(
    pieces: Seq<Seq<Coord>>,
    target: Seq<Coord>,
    must_fill: Seq<Coord>,
    choice: Seq<int>,
)
    requires
        pieces.len() > SECOND_TWIN,
        pieces[FIRST_TWIN as int] == pieces[SECOND_TWIN as int],
        admissible(
            pieces,
            candidate_lists(pieces, occupied(target, identity())),
            occupied(must_fill, identity()),
            choice,
        ),
        choice[FIRST_TWIN as int] != choice[SECOND_TWIN as int],
    ensures
        ({
            let lists = candidate_lists(pieces, occupied(target, identity()));
            let found = solutions(pieces, lists, occupied(must_fill, identity()));
            found.contains(choice) != found.contains(swapped(choice))
        }),
{
    let lists = candidate_lists(pieces, occupied(target, identity()));
    lemma_twins_listed_once(pieces, lists, occupied(must_fill, identity()), choice);
}

/// The assemblies are determined by the pieces, the target and the cells to
/// fill: two lists that both hold the assemblies of the same input, in order,
/// hold the same placements in the same order.
pub proof fn lemma_assemblies_determined(
    pieces: Seq<Seq<Coord>>,
    target: Seq<Coord>,
    must_fill: Seq<Coord>,
    first: Seq<Vec<Position>>,
    second: Seq<Vec<Position>>,
)
    requires
        first.len() == assemblies(pieces, target, must_fill).len(),
        forall|k: int|
            0 <= k < first.len() ==> (#[trigger] first[k])@ == assemblies(
                pieces,
                target,
                must_fill,
            )[k],
        second.len() == assemblies(pieces, target, must_fill).len(),
        forall|k: int|
            0 <= k < second.len() ==> (#[trigger] second[k])@ == assemblies(
                pieces,
                target,
                must_fill,
            )[k],
    ensures
        first.len() == second.len(),
        forall|k: int| 0 <= k < first.len() ==> (#[trigger] first[k])@ == second[k]@,
{
}

/// If a cell that must be filled lies outside the target, there is no
/// assembly.
pub proof fn lemma_unreachable_cell_no_assembly(
    pieces: Seq<Seq<Coord>>,
    target: Seq<Coord>,
    must_fill: Seq<Coord>,
)
    requires
        !occupied(must_fill, identity()).subset_of(occupied(target, identity())),
    ensures
        assemblies(pieces, target, must_fill).len() == 0,
{
    let goal = occupied(target, identity());
    let must = occupied(must_fill, identity());
    if assemblies(pieces, target, must_fill).len() > 0 {
        let placed = assemblies(pieces, target, must_fill)[0];
        lemma_assemblies_valid(pieces, target, must_fill, 0);
        lemma_assemblies_cover(pieces, target, must_fill, 0);
        let cell = choose|cell: int| must.contains(cell) && !goal.contains(cell);
        assert(filled(pieces, placed).contains(cell));
        let i = choose|i: int|
            0 <= i < placed.len() && (#[trigger] cells_of(pieces, placed, i)).contains(cell);
        lemma_assemblies_within_target(pieces, target, must_fill, 0, i);
    }
}

/// If one of the pieces reaches row 3 or beyond, there is no assembly.
pub proof fn lemma_tall_piece_no_assembly(
    pieces: Seq<Seq<Coord>>,
    target: Seq<Coord>,
    must_fill: Seq<Coord>,
    i: int,
)
    requires
        0 <= i < pieces.len(),
        max_y(pieces[i]) >= 3,
    ensures
        assemblies(pieces, target, must_fill).len() == 0,
{
    lemma_tall_piece_no_candidate(pieces[i], occupied(target, identity()));
    lemma_no_candidate_no_assembly(pieces, target, must_fill, i);
}

/// If one of the pieces has no candidate placement, there is no assembly.
pub proof fn lemma_no_candidate_no_assembly(
    pieces: Seq<Seq<Coord>>,
    target: Seq<Coord>,
    must_fill: Seq<Coord>,
    i: int,
)
    requires
        0 <= i < pieces.len(),
        candidates(pieces[i], occupied(target, identity())).len() == 0,
    ensures
        assemblies(pieces, target, must_fill).len() == 0,
{
    if assemblies(pieces, target, must_fill).len() > 0 {
        let lists = candidate_lists(pieces, occupied(target, identity()));
        let choice = solutions(pieces, lists, occupied(must_fill, identity()))[0];
        lemma_assemblies_valid(pieces, target, must_fill, 0);
        assert(0 <= choice[i] < lists[i].len());
    }
}

} // verus!
