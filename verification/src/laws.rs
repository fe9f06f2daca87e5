//! What holds of every board and every sequence of moves.

use vstd::prelude::*;
use crate::grid::{Grid, Move, lemma_area_bound, lemma_step_wf, lemma_target_in_grid};
use crate::shuffle::{BoardShuffle, DummyShuffle, RandomShuffle};

verus! {

/// The moves that take back `path`: the inverse of each move, last first.
pub open spec fn undo(path: Seq<Move>) -> Seq<Move> {
    Seq::new(path.len(), |k: int| path[path.len() - 1 - k].inverse())
}

/// The solved layout of every side is in order.
pub proof fn law_solved_is_ordered(size: int)
    requires
        1 <= size <= 255,
    ensures
        Grid::solved(size).is_ordered(),
{
    lemma_area_bound(Grid::solved(size));
}

/// A board that was built with the strategy that leaves it alone is in
/// order, whatever its side.
pub proof fn law_fresh_board_is_ordered(size: int, fresh: Grid)
    requires
        1 <= size <= 255,
        DummyShuffle.outcome(Grid::solved(size), fresh),
    ensures
        fresh == Grid::solved(size),
        fresh.is_ordered(),
{
    law_solved_is_ordered(size);
}

/// After a legal move the opposite move is legal too, and it restores the
/// grid exactly.
pub proof fn law_opposite_restores(g: Grid, mv: Move)
    requires
        g.wf(),
        g.legal(mv),
    ensures
        g.step(mv).legal(mv.inverse()),
        g.step(mv).step(mv.inverse()) == g,
{
    lemma_target_in_grid(g, mv);
    let h = g.step(mv);
    let n = g.size;
    match mv {
        Move::Left => {
            assert(h.blank % n != 0);
        },
        Move::Right => {
            assert((h.blank + 1) % n != 0);
        },
        Move::Up => {},
        Move::Down => {
            assert(n * n - n >= 0) by (nonlinear_arith)
                requires
                    n >= 1,
            ;
        },
    }
    assert(h.step(mv.inverse()).cells =~= g.cells);
}

/// An illegal move changes nothing.
pub proof fn law_illegal_move_is_noop(g: Grid, mv: Move)
    requires
        !g.legal(mv),
    ensures
        g.step(mv) == g,
{
}

/// Whatever moves are attempted, the invariant and the side stay.
pub proof fn law_moves_keep_invariant(g: Grid, moves: Seq<Move>)
    requires
        g.wf(),
    ensures
        g.run(moves).wf(),
        g.run(moves).size == g.size,
    decreases moves.len(),
{
    if moves.len() > 0 {
        law_moves_keep_invariant(g, moves.drop_last());
        lemma_step_wf(g.run(moves.drop_last()), moves.last());
    }
}

/// No more moves are applied than are attempted.
pub proof fn law_applied_at_most_attempted(g: Grid, moves: Seq<Move>)
    ensures
        g.applied(moves) <= moves.len(),
        g.all_legal(moves) <==> g.applied(moves) == moves.len(),
    decreases moves.len(),
{
    if moves.len() > 0 {
        let front = moves.drop_last();
        law_applied_at_most_attempted(g, front);
        assert(moves.take(front.len() as int) == front);
        assert forall|k: int| 0 <= k < front.len() implies front.take(k) == moves.take(k)
            && front[k] == moves[k] by {}
        if g.all_legal(moves) {
            assert forall|k: int| 0 <= k < front.len() implies #[trigger] g.run(
                front.take(k),
            ).legal(front[k]) by {
                assert(g.run(moves.take(k)).legal(moves[k]));
            }
            assert(g.run(moves.take(front.len() as int)).legal(moves[front.len() as int]));
        }
        if g.applied(moves) == moves.len() {
            assert forall|k: int| 0 <= k < moves.len() implies #[trigger] g.run(
                moves.take(k),
            ).legal(moves[k]) by {
                if k < front.len() {
                    assert(g.run(front.take(k)).legal(front[k]));
                }
            }
        }
    }
}

/// Attempting `first` and then `second` is attempting the two in a row.
pub proof fn law_run_in_parts(g: Grid, first: Seq<Move>, second: Seq<Move>)
    ensures
        g.run(first + second) == g.run(first).run(second),
    decreases second.len(),
{
    if second.len() == 0 {
        assert(first + second == first);
    } else {
        law_run_in_parts(g, first, second.drop_last());
        assert((first + second).drop_last() == first + second.drop_last());
    }
}

/// What can be reached in two stages can be reached.
pub proof fn law_reaches_transitive(a: Grid, b: Grid, c: Grid)
    requires
        a.reaches(b),
        b.reaches(c),
    ensures
        a.reaches(c),
{
    let first = choose|moves: Seq<Move>| a.run(moves) == b;
    let second = choose|moves: Seq<Move>| b.run(moves) == c;
    law_run_in_parts(a, first, second);
    assert(a.run(first + second) == c);
}

/// A path of legal moves is taken back by `undo`: every move of it is
/// legal in its turn, and it ends where the path began.
pub proof fn law_undo_restores(g: Grid, path: Seq<Move>)
    requires
        g.wf(),
        g.all_legal(path),
    ensures
        g.run(path).all_legal(undo(path)),
        g.run(path).run(undo(path)) == g,
    decreases path.len(),
{
    let end = g.run(path);
    let back = undo(path);
    if path.len() == 0 {
        assert(end.run(back) == g);
    } else {
        let front = path.drop_last();
        let mid = g.run(front);
        let mv = path.last();
        assert(path.take(front.len() as int) == front);
        assert(mid.legal(mv));
        assert forall|k: int| 0 <= k < front.len() implies #[trigger] g.run(front.take(k)).legal(
            front[k],
        ) by {
            assert(front.take(k) == path.take(k));
            assert(g.run(path.take(k)).legal(path[k]));
        }
        law_moves_keep_invariant(g, front);
        law_undo_restores(g, front);
        law_opposite_restores(mid, mv);
        let head = seq![mv.inverse()];
        assert(back == head + undo(front));
        assert(head.drop_last() == Seq::<Move>::empty());
        assert(end.run(head) == mid) by {
            assert(end.run(head.drop_last()) == end);
        }
        law_run_in_parts(end, head, undo(front));
        assert forall|k: int| 0 <= k < back.len() implies #[trigger] end.run(back.take(k)).legal(
            back[k],
        ) by {
            if k == 0 {
                assert(back.take(0) == Seq::<Move>::empty());
                assert(end.run(back.take(0)) == end);
            } else {
                assert(back.take(k) == head + undo(front).take(k - 1));
                law_run_in_parts(end, head, undo(front).take(k - 1));
                assert(mid.run(undo(front).take(k - 1)).legal(undo(front)[k - 1]));
            }
        }
    }
}

/// Reaching goes both ways: from whatever a board can be brought to, it can
/// be brought back.
pub proof fn law_reaches_symmetric(a: Grid, b: Grid)
    requires
        a.wf(),
        a.reaches(b),
    ensures
        b.reaches(a),
{
    let moves = choose|moves: Seq<Move>| a.run(moves) == b;
    lemma_run_can_return(a, moves);
}

proof fn lemma_run_can_return(g: Grid, moves: Seq<Move>)
    requires
        g.wf(),
    ensures
        g.run(moves).reaches(g),
    decreases moves.len(),
{
    if moves.len() == 0 {
        assert(g.run(Seq::<Move>::empty()) == g);
    } else {
        let mid = g.run(moves.drop_last());
        let mv = moves.last();
        lemma_run_can_return(g, moves.drop_last());
        law_moves_keep_invariant(g, moves.drop_last());
        if mid.legal(mv) {
            law_opposite_restores(mid, mv);
            let head = seq![mv.inverse()];
            assert(head.drop_last() == Seq::<Move>::empty());
            assert(mid.step(mv).run(head.drop_last()) == mid.step(mv));
            assert(mid.step(mv).run(head) == mid);
            law_reaches_transitive(mid.step(mv), mid, g);
        }
    }
}

/// A randomly walked board meets the invariant and can be brought back to
/// the board that the walk began on: shuffling a solved board never leaves
/// a puzzle that cannot be solved.
pub proof fn law_random_walk_is_solvable(shuffle: RandomShuffle, before: Grid, after: Grid)
    requires
        before.wf(),
        shuffle.outcome(before, after),
    ensures
        after.wf(),
        after.size == before.size,
        before.reaches(after),
        after.reaches(before),
{
    let path = choose|path: Seq<Move>|
        {
            &&& path.len() == crate::shuffle::walk_length(before.size)
            &&& before.all_legal(path)
            &&& #[trigger] before.run(path) == after
        };
    law_moves_keep_invariant(before, path);
    law_undo_restores(before, path);
    assert(after.run(undo(path)) == before);
}

/// The sequence `1, 2, .., count`, every number a tile.
pub open spec fn counting(count: nat) -> Seq<Option<u16>> {
    Seq::new(count, |k: int| Some((k + 1) as u16))
}

/// Tiles only, each within `1 ..= tiles.len()`, each less than the next.
spec fn climbs(tiles: Seq<Option<u16>>) -> bool {
    &&& forall|k: int|
        0 <= k < tiles.len() ==> (#[trigger] tiles[k]) is Some && 1 <= tiles[k].unwrap()
            <= tiles.len()
    &&& forall|a: int, b: int|
        0 <= a < b < tiles.len() ==> (#[trigger] tiles[a]).unwrap() < (#[trigger] tiles[b]).unwrap()
}

proof fn lemma_climb_from_below(tiles: Seq<Option<u16>>, k: int)
    requires
        climbs(tiles),
        0 <= k < tiles.len(),
    ensures
        tiles[k].unwrap() >= k + 1,
    decreases k,
{
    if k > 0 {
        lemma_climb_from_below(tiles, k - 1);
        assert(tiles[k - 1].unwrap() < tiles[k].unwrap());
    }
}

proof fn lemma_climb_from_above(tiles: Seq<Option<u16>>, k: int)
    requires
        climbs(tiles),
        0 <= k < tiles.len(),
    ensures
        tiles[k].unwrap() <= k + 1,
    decreases tiles.len() - k,
{
    if k + 1 < tiles.len() {
        lemma_climb_from_above(tiles, k + 1);
        assert(tiles[k].unwrap() < tiles[k + 1].unwrap());
    }
}

/// A board is in order exactly when its tiles, read in storage order with
/// the blank left out, count `1, 2, ..` up to the last tile; where the
/// blank stands plays no part.
pub proof fn law_ordered_means_counting(g: Grid)
    requires
        g.wf(),
    ensures
        g.is_ordered() <==> g.tiles() == counting((g.area() - 1) as nat),
{
    lemma_area_bound(g);
    let tiles = g.tiles();
    let count = (g.area() - 1) as nat;
    assert(tiles.len() == count);
    assert forall|k: int| 0 <= k < count implies #[trigger] tiles[k] == g.cells[if k < g.blank {
        k
    } else {
        k + 1
    }] by {}
    if g.is_ordered() {
        assert(climbs(tiles)) by {
            assert forall|a: int, b: int| 0 <= a < b < tiles.len() implies (#[trigger] tiles[a]).unwrap()
                < (#[trigger] tiles[b]).unwrap() by {
                let i = if a < g.blank { a } else { a + 1 };
                let j = if b < g.blank { b } else { b + 1 };
                assert(g.cells[i] is Some && g.cells[j] is Some);
            }
        }
        assert forall|k: int| 0 <= k < count implies tiles[k] == counting(count)[k] by {
            lemma_climb_from_below(tiles, k);
            lemma_climb_from_above(tiles, k);
        }
        assert(tiles =~= counting(count));
    }
    if tiles == counting(count) {
        assert forall|i: int, j: int|
            0 <= i < j < g.cells.len() && (#[trigger] g.cells[i]) is Some
                && (#[trigger] g.cells[j]) is Some implies g.cells[i].unwrap()
                < g.cells[j].unwrap() by {
            let a = if i < g.blank { i } else { i - 1 };
            let b = if j < g.blank { j } else { j - 1 };
            assert(g.cells[i] == tiles[a]);
            assert(g.cells[j] == tiles[b]);
        }
    }
}

} // verus!
