//! Shuffle strategies: what a caller hands to a new board to mix it.

use vstd::prelude::*;
use rand::seq::SliceRandom;
use crate::board::Board;
use crate::grid::{Grid, Move, lemma_legal_moves_exact, lemma_some_move_legal};

verus! {

/// A way to mix a freshly built board. Whatever it does, it leaves a board
/// of the same side that some sequence of moves produces from the one it was
/// given, so a shuffled board can always be solved.
pub trait BoardShuffle {
    /// What one call of `shuffle` may make of the grid `before`.
    spec fn outcome(&self, before: Grid, after: Grid) -> bool;

    /// Mixes `board`, by moves only.
    fn shuffle(&mut self, board: &mut Board)
        requires
            old(board).wf(),
        ensures
            final(board).wf(),
            final(board)@.size == old(board)@.size,
            old(self).outcome(old(board)@, final(board)@),
            old(board)@.reaches(final(board)@),
    ;
}

/// The strategy that leaves the board as it is.
pub struct DummyShuffle;

impl BoardShuffle for DummyShuffle {
    open spec fn outcome(&self, before: Grid, after: Grid) -> bool {
        after == before
    }

    fn shuffle(&mut self, board: &mut Board) {
        assert(board@.run(Seq::<Move>::empty()) == board@);
    }
}

/// rand's generator that is local to the thread, seeded by the system.
#[verifier::external_type_specification]
#[verifier::external_body]
pub struct ExThreadRng(rand::rngs::ThreadRng);

/// Calls rand's `SliceRandom::choose` on `candidates`. As rand documents it,
/// the result is `None` for an empty slice and one of the slice's elements
/// otherwise; which one is left open.
#[verifier::external_body]
fn choose_move(rng: &mut rand::rngs::ThreadRng, candidates: &[Move]) -> (picked: Option<Move>)
    ensures
        candidates@.len() == 0 ==> picked is None,
        candidates@.len() > 0 ==> picked is Some && candidates@.contains(picked.unwrap()),
{
    candidates.choose(rng).copied()
}

/// The number of moves in a random walk on a board of side `size`: the
/// fourth power of the side, and none on the board of one cell, which has no
/// legal move.
pub open spec fn walk_length(size: int) -> int {
    if size <= 1 {
        0
    } else {
        size * size * size * size
    }
}

/// The strategy that walks the blank at random: every step is a legal move,
/// drawn among those that are legal where the blank stands. That is the
/// draw among all four directions, repeated until a legal one comes up,
/// without the repeats.
pub struct RandomShuffle {
    rng: rand::rngs::ThreadRng,
}

impl RandomShuffle {
    /// A shuffle that draws from `rng`.
    pub fn new(rng: rand::rngs::ThreadRng) -> (shuffle: Self)
        ensures
            shuffle.generator() == rng,
    {
        Self { rng }
    }

    /// The generator that the shuffle draws from.
    pub closed spec fn generator(&self) -> rand::rngs::ThreadRng {
        self.rng
    }
}

impl BoardShuffle for RandomShuffle {
    /// `after` is the end of a path of exactly `walk_length` legal moves
    /// that starts at `before`.
    open spec fn outcome(&self, before: Grid, after: Grid) -> bool {
        exists|path: Seq<Move>|
            {
                &&& path.len() == walk_length(before.size)
                &&& before.all_legal(path)
                &&& #[trigger] before.run(path) == after
            }
    }

    fn shuffle(&mut self, board: &mut Board) {
        let size: u64 = board.size() as u64;
        assert(size * size <= 65025 && size * size * size <= 16581375 && size * size * size
            * size <= 4228250625) by (nonlinear_arith)
            requires
                0 <= size <= 255,
        ;
        let num_shuffle_moves: u64 = if size <= 1 {
            0
        } else {
            size * size * size * size
        };
        let ghost start = board@;
        let ghost mut path: Seq<Move> = Seq::empty();
        let mut i: u64 = 0;
        assert(start.run(path) == start);
        while i < num_shuffle_moves
            invariant
                i <= num_shuffle_moves,
                num_shuffle_moves == walk_length(start.size),
                board.wf(),
                board@.size == start.size,
                path.len() == i,
                start.all_legal(path),
                start.run(path) == board@,
            decreases num_shuffle_moves - i,
        {
            let candidates = board.legal_moves();
            proof {
                lemma_some_move_legal(board@);
            }
            let picked = choose_move(&mut self.rng, candidates.as_slice());
            let mv = picked.unwrap();
            proof {
                lemma_legal_moves_exact(board@, mv);
                let longer = path.push(mv);
                assert(longer.drop_last() == path);
                assert forall|k: int| 0 <= k < longer.len() implies #[trigger] start.run(
                    longer.take(k),
                ).legal(longer[k]) by {
                    if k < path.len() {
                        assert(longer.take(k) == path.take(k));
                    } else {
                        assert(longer.take(k) == path);
                    }
                }
                path = longer;
            }
            board.move_once(mv);
            i += 1;
        }
    }
}

} // verus!
