//! The mathematical model of a board and of the moves on it.

use vstd::prelude::*;

verus! {

/// A direction in which a tile slides into the blank.
///
/// `Left` slides the tile on the blank's right one cell to the left, so the
/// blank itself goes one cell forward in storage order; `Right` is the
/// reverse. `Up` slides the tile below the blank upwards, so the blank goes
/// down one row; `Down` is the reverse.
#[derive(Clone, Copy, Debug, PartialEq, Eq, Structural)]
pub enum Move {
    Left,
    Right,
    Up,
    Down,
}

impl Move {
    /// The move that undoes `self`.
    pub open spec fn inverse(self) -> Move {
        match self {
            Move::Left => Move::Right,
            Move::Right => Move::Left,
            Move::Up => Move::Down,
            Move::Down => Move::Up,
        }
    }

    /// The move that undoes `self`.
    #[verifier::when_used_as_spec(inverse)]
    pub fn opposite(self) -> (r: Move)
        ensures
            r == self.inverse(),
    {
        match self {
            Move::Left => Move::Right,
            Move::Right => Move::Left,
            Move::Up => Move::Down,
            Move::Down => Move::Up,
        }
    }
}

/// A board as a mathematical value: `size * size` cells in row-major order,
/// each a tile or `None` for the blank, and the index of the blank.
pub struct Grid {
    pub size: int,
    pub cells: Seq<Option<u16>>,
    pub blank: int,
}

impl Grid {
    /// The number of cells.
    pub open spec fn area(self) -> int {
        self.size * self.size
    }

    /// The invariant of a board: the cells fill a square of side 1 to 255,
    /// `blank` is the index of the only empty cell, and the other cells hold
    /// each of the numbers `1 ..= area - 1` exactly once.
    pub open spec fn wf(self) -> bool {
        &&& 1 <= self.size <= 255
        &&& self.cells.len() == self.area()
        &&& 0 <= self.blank < self.area()
        &&& self.cells[self.blank] is None
        &&& forall|i: int|
            0 <= i < self.area() && i != self.blank ==> (#[trigger] self.cells[i]) is Some && 1
                <= self.cells[i].unwrap() < self.area()
        &&& forall|i: int, j: int|
            0 <= i < j < self.area() ==> #[trigger] self.cells[i] != #[trigger] self.cells[j]
        &&& forall|v: u16| 1 <= v < self.area() ==> #[trigger] self.cells.contains(Some(v))
    }

    /// The solved layout of side `size`: `1, 2, ..` in storage order, the
    /// blank in the last cell.
    pub open spec fn solved(size: int) -> Grid {
        Grid {
            size,
            cells: Seq::new(
                (size * size) as nat,
                |i: int|
                    if i + 1 < size * size {
                        Some((i + 1) as u16)
                    } else {
                        None
                    },
            ),
            blank: size * size - 1,
        }
    }

    /// The index that the blank would take under `mv`.
    pub open spec fn target(self, mv: Move) -> int {
        match mv {
            Move::Left => self.blank + 1,
            Move::Right => self.blank - 1,
            Move::Up => self.blank + self.size,
            Move::Down => self.blank - self.size,
        }
    }

    /// Whether `mv` keeps the blank inside the grid and, for `Left` and
    /// `Right`, inside its row.
    pub open spec fn legal(self, mv: Move) -> bool {
        match mv {
            Move::Left => (self.blank + 1) % self.size != 0,
            Move::Right => self.blank % self.size != 0,
            Move::Up => self.blank + self.size < self.area(),
            Move::Down => self.blank - self.size >= 0,
        }
    }

    /// The grid after one attempt at `mv`: the blank and its target exchanged
    /// where the move is legal, the grid itself where it is not.
    pub open spec fn step(self, mv: Move) -> Grid {
        if self.legal(mv) {
            Grid {
                size: self.size,
                cells: self.cells.update(self.blank, self.cells[self.target(mv)]).update(
                    self.target(mv),
                    None,
                ),
                blank: self.target(mv),
            }
        } else {
            self
        }
    }

    /// The grid after attempting `moves` from first to last.
    pub open spec fn run(self, moves: Seq<Move>) -> Grid
        decreases moves.len(),
    {
        if moves.len() == 0 {
            self
        } else {
            self.run(moves.drop_last()).step(moves.last())
        }
    }

    /// How many of `moves`, attempted from first to last, are legal at the
    /// moment they are attempted.
    pub open spec fn applied(self, moves: Seq<Move>) -> nat
        decreases moves.len(),
    {
        if moves.len() == 0 {
            0
        } else {
            let before = self.run(moves.drop_last());
            let earlier = self.applied(moves.drop_last());
            if before.legal(moves.last()) {
                earlier + 1
            } else {
                earlier
            }
        }
    }

    /// Whether each of `moves`, attempted from first to last, is legal at the
    /// moment it is attempted.
    pub open spec fn all_legal(self, moves: Seq<Move>) -> bool {
        forall|k: int| 0 <= k < moves.len() ==> #[trigger] self.run(moves.take(k)).legal(moves[k])
    }

    /// The legal moves, in the order `Left`, `Right`, `Up`, `Down`.
    pub open spec fn legal_moves(self) -> Seq<Move> {
        let left = if self.legal(Move::Left) { seq![Move::Left] } else { seq![] };
        let right = if self.legal(Move::Right) { seq![Move::Right] } else { seq![] };
        let up = if self.legal(Move::Up) { seq![Move::Up] } else { seq![] };
        let down = if self.legal(Move::Down) { seq![Move::Down] } else { seq![] };
        left + right + up + down
    }

    /// Whether `other` comes out of `self` by some sequence of moves.
    pub open spec fn reaches(self, other: Grid) -> bool {
        exists|moves: Seq<Move>| #[trigger] self.run(moves) == other
    }

    /// The tiles in storage order, the blank left out.
    pub open spec fn tiles(self) -> Seq<Option<u16>> {
        self.cells.remove(self.blank)
    }

    /// Whether the tiles ascend in storage order when the blank is skipped.
    pub open spec fn is_ordered(self) -> bool {
        forall|i: int, j: int|
            0 <= i < j < self.cells.len() && (#[trigger] self.cells[i]) is Some
                && (#[trigger] self.cells[j]) is Some ==> self.cells[i].unwrap()
                < self.cells[j].unwrap()
    }
}

/// A grid of side 1 to 255 has between 1 and 65025 cells.
pub proof fn lemma_area_bound(g: Grid)
    requires
        1 <= g.size <= 255,
    ensures
        1 <= g.area() <= 65025,
{
    assert(1 <= g.size * g.size <= 65025) by (nonlinear_arith)
        requires
            1 <= g.size <= 255,
    ;
}

/// The solved layout of every side from 1 to 255 meets the invariant.
pub proof fn lemma_solved_wf(size: int)
    requires
        1 <= size <= 255,
    ensures
        Grid::solved(size).wf(),
{
    let g = Grid::solved(size);
    lemma_area_bound(g);
    assert forall|v: u16| 1 <= v < g.area() implies #[trigger] g.cells.contains(Some(v)) by {
        assert(g.cells[v - 1] == Some(v));
    }
}

/// A legal move sends the blank to another cell of the grid.
pub proof fn lemma_target_in_grid(g: Grid, mv: Move)
    requires
        g.wf(),
        g.legal(mv),
    ensures
        0 <= g.target(mv) < g.area(),
        g.target(mv) != g.blank,
{
    match mv {
        Move::Left => {
            if g.blank + 1 == g.area() {
                vstd::arithmetic::div_mod::lemma_mod_multiples_basic(g.size, g.size);
            }
        },
        Move::Right => {
            if g.blank == 0 {
                vstd::arithmetic::div_mod::lemma_small_mod(0, g.size as nat);
            }
        },
        Move::Up => {},
        Move::Down => {},
    }
}

/// `legal_moves` lists the legal moves and no others.
pub proof fn lemma_legal_moves_exact(g: Grid, mv: Move)
    ensures
        g.legal_moves().contains(mv) <==> g.legal(mv),
{
    let left = if g.legal(Move::Left) { seq![Move::Left] } else { seq![] };
    let right = if g.legal(Move::Right) { seq![Move::Right] } else { seq![] };
    let up = if g.legal(Move::Up) { seq![Move::Up] } else { seq![] };
    let down = if g.legal(Move::Down) { seq![Move::Down] } else { seq![] };
    let all = g.legal_moves();
    assert(all == left + right + up + down);
    if g.legal(mv) {
        let at = match mv {
            Move::Left => 0,
            Move::Right => left.len() as int,
            Move::Up => (left.len() + right.len()) as int,
            Move::Down => (left.len() + right.len() + up.len()) as int,
        };
        assert(all[at] == mv);
    }
}

/// On a board of side 2 or more the blank can always move within its row.
pub proof fn lemma_some_move_legal(g: Grid)
    requires
        g.wf(),
        g.size >= 2,
    ensures
        g.legal(Move::Left) || g.legal(Move::Right),
        g.legal_moves().len() > 0,
{
    let b = g.blank;
    let n = g.size;
    if b % n == 0 && (b + 1) % n == 0 {
        vstd::arithmetic::div_mod::lemma_fundamental_div_mod(b, n);
        vstd::arithmetic::div_mod::lemma_fundamental_div_mod(b + 1, n);
        let q = b / n;
        let r = (b + 1) / n;
        assert(n * r - n * q == 1);
        assert(false) by (nonlinear_arith)
            requires
                n * r - n * q == 1,
                n >= 2,
        ;
    }
}

/// One attempted move, legal or not, keeps the invariant and the size.
pub proof fn lemma_step_wf(g: Grid, mv: Move)
    requires
        g.wf(),
    ensures
        g.step(mv).wf(),
        g.step(mv).size == g.size,
{
    if g.legal(mv) {
        lemma_target_in_grid(g, mv);
        let t = g.target(mv);
        let h = g.step(mv);
        assert forall|v: u16| 1 <= v < h.area() implies #[trigger] h.cells.contains(Some(v)) by {
            assert(g.cells.contains(Some(v)));
            let k = choose|k: int| 0 <= k < g.cells.len() && g.cells[k] == Some(v);
            if k == t {
                assert(h.cells[g.blank] == Some(v));
            } else {
                assert(h.cells[k] == Some(v));
            }
        }
    }
}

} // verus!
