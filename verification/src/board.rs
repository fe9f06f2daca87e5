//! The board itself: the cells, the cached position of the blank, and the
//! operations that build, move and inspect it.

use vstd::prelude::*;
use crate::grid::{
    Grid, Move, lemma_area_bound, lemma_solved_wf, lemma_step_wf, lemma_target_in_grid,
};
use crate::shuffle::BoardShuffle;

verus! {

/// Why a board could not be built.
#[derive(Clone, Copy, Debug, PartialEq, Eq, Structural)]
pub enum ConstructionError {
    /// The side was zero: a board has at least one cell.
    ZeroSize,
}

/// An N×N board of numbered tiles with one blank cell.
#[derive(PartialEq)]
pub struct Board {
    cells: Vec<Option<u16>>,
    size: u8,
    free_cell_ix: usize,
}

impl View for Board {
    type V = Grid;

    closed spec fn view(&self) -> Grid {
        Grid { size: self.size as int, cells: self.cells@, blank: self.free_cell_ix as int }
    }
}

impl Board {
    /// The invariant that every operation keeps: see [`Grid::wf`].
    pub open spec fn wf(&self) -> bool {
        self@.wf()
    }

    /// Builds the solved board of side `size` and hands it to `shuffler`
    /// before returning it. Fails on a side of zero, and on nothing else:
    /// the largest side, 255, still has tiles that fit 16 bits.
    pub fn new<S: BoardShuffle + ?Sized>(size: u8, shuffler: &mut S) -> (built: Result<
        Board,
        ConstructionError,
    >)
        ensures
            size == 0 <==> built is Err,
            built matches Err(error) ==> error == ConstructionError::ZeroSize,
            built is Ok ==> {
                let board = built.unwrap();
                &&& board.wf()
                &&& board@.size == size
                &&& old(shuffler).outcome(Grid::solved(size as int), board@)
                &&& Grid::solved(size as int).reaches(board@)
            },
    {
        if size == 0 {
            return Err(ConstructionError::ZeroSize);
        }
        proof {
            lemma_area_bound(Grid::solved(size as int));
            lemma_solved_wf(size as int);
        }
        let num_cells: u16 = (size as u16) * (size as u16);
        let mut cells: Vec<Option<u16>> = Vec::new();
        let mut value: u16 = 1;
        while value < num_cells
            invariant
                1 <= value <= num_cells,
                cells@.len() == value - 1,
                forall|i: int| 0 <= i < cells@.len() ==> cells@[i] == Some((i + 1) as u16),
            decreases num_cells - value,
        {
            cells.push(Some(value));
            value += 1;
        }
        cells.push(None);
        let free_cell_ix: usize = cells.len() - 1;
        let mut board = Board { cells, size, free_cell_ix };
        assert(board@.cells =~= Grid::solved(size as int).cells);
        shuffler.shuffle(&mut board);
        Ok(board)
    }

    /// Puts the board back into the solved layout, in the cells it already
    /// has, and hands it to `shuffler`: a new game on the same board.
    pub fn reset<S: BoardShuffle + ?Sized>(&mut self, shuffler: &mut S)
        requires
            old(self).wf(),
        ensures
            final(self).wf(),
            final(self)@.size == old(self)@.size,
            old(shuffler).outcome(Grid::solved(old(self)@.size), final(self)@),
            Grid::solved(old(self)@.size).reaches(final(self)@),
    {
        proof {
            lemma_area_bound(self@);
            lemma_solved_wf(self@.size);
        }
        let num_cells: usize = self.cells.len();
        let mut i: usize = 0;
        while i + 1 < num_cells
            invariant
                num_cells == self.cells@.len(),
                num_cells <= 65025,
                i + 1 <= num_cells,
                self.size == old(self).size,
                forall|k: int| 0 <= k < i ==> self.cells@[k] == Some((k + 1) as u16),
            decreases num_cells - i,
        {
            self.cells[i] = Some((i + 1) as u16);
            i += 1;
        }
        self.cells[i] = None;
        self.free_cell_ix = i;
        assert(self@.cells =~= Grid::solved(self@.size).cells);
        shuffler.shuffle(self);
    }

    /// Whether `mv` is legal where the blank stands now.
    pub fn is_legal(&self, mv: Move) -> (legal: bool)
        requires
            self.wf(),
        ensures
            legal == self@.legal(mv),
    {
        proof {
            lemma_area_bound(self@);
        }
        let size: usize = self.size as usize;
        let blank: usize = self.free_cell_ix;
        match mv {
            Move::Left => (blank + 1) % size != 0,
            Move::Right => blank % size != 0,
            Move::Up => blank + size < self.cells.len(),
            Move::Down => blank >= size,
        }
    }

    /// The moves that are legal where the blank stands now, in the order
    /// `Left`, `Right`, `Up`, `Down`.
    pub fn legal_moves(&self) -> (moves: Vec<Move>)
        requires
            self.wf(),
        ensures
            moves@ == self@.legal_moves(),
    {
        let mut moves: Vec<Move> = Vec::new();
        if self.is_legal(Move::Left) {
            moves.push(Move::Left);
        }
        if self.is_legal(Move::Right) {
            moves.push(Move::Right);
        }
        if self.is_legal(Move::Up) {
            moves.push(Move::Up);
        }
        if self.is_legal(Move::Down) {
            moves.push(Move::Down);
        }
        assert(moves@ =~= self@.legal_moves());
        moves
    }

    /// Attempts `mv` and says whether it was legal. A legal move exchanges
    /// the blank with its target; an illegal one changes nothing.
    pub fn move_once(&mut self, mv: Move) -> (applied: bool)
        requires
            old(self).wf(),
        ensures
            applied == old(self)@.legal(mv),
            final(self)@ == old(self)@.step(mv),
            !applied ==> final(self)@ == old(self)@,
            final(self).wf(),
    {
        proof {
            lemma_area_bound(self@);
            lemma_step_wf(self@, mv);
            if self@.legal(mv) {
                lemma_target_in_grid(self@, mv);
            }
        }
        if !self.is_legal(mv) {
            return false;
        }
        let size: usize = self.size as usize;
        let blank: usize = self.free_cell_ix;
        let target: usize = match mv {
            Move::Left => blank + 1,
            Move::Right => blank - 1,
            Move::Up => blank + size,
            Move::Down => blank - size,
        };
        let tile = self.cells[target];
        self.cells[blank] = tile;
        self.cells[target] = None;
        self.free_cell_ix = target;
        true
    }

    /// Attempts each of `moves` in turn, whether or not the one before was
    /// legal, and returns how many were.
    pub fn move_many(&mut self, moves: &[Move]) -> (count: usize)
        requires
            old(self).wf(),
        ensures
            final(self)@ == old(self)@.run(moves@),
            count == old(self)@.applied(moves@),
            final(self).wf(),
    {
        let mut successful_moves: usize = 0;
        let mut i: usize = 0;
        while i < moves.len()
            invariant
                i <= moves.len(),
                successful_moves <= i,
                self.wf(),
                self@ == old(self)@.run(moves@.take(i as int)),
                successful_moves == old(self)@.applied(moves@.take(i as int)),
            decreases moves.len() - i,
        {
            assert(moves@.take(i + 1).drop_last() == moves@.take(i as int));
            if self.move_once(moves[i]) {
                successful_moves += 1;
            }
            i += 1;
        }
        assert(moves@.take(i as int) == moves@);
        successful_moves
    }

    /// The rows from top to bottom, each a slice of the board's own cells.
    pub fn rows(&self) -> (rows: Vec<&[Option<u16>]>)
        requires
            self.wf(),
        ensures
            rows@.len() == self@.size,
            forall|r: int|
                0 <= r < self@.size ==> (#[trigger] rows@[r])@ == self@.cells.subrange(
                    r * self@.size,
                    (r + 1) * self@.size,
                ),
    {
        proof {
            lemma_area_bound(self@);
        }
        let size: usize = self.size as usize;
        let cells: &[Option<u16>] = self.cells.as_slice();
        let mut rows: Vec<&[Option<u16>]> = Vec::new();
        let mut r: usize = 0;
        while r < size
            invariant
                size == self@.size,
                1 <= size <= 255,
                cells@ == self@.cells,
                cells@.len() == size * size,
                cells@.len() <= 65025,
                r <= size,
                rows@.len() == r,
                forall|k: int|
                    0 <= k < r ==> (#[trigger] rows@[k])@ == cells@.subrange(
                        k * size,
                        (k + 1) * size,
                    ),
            decreases size - r,
        {
            assert(0 <= r * size && r * size + size <= size * size) by (nonlinear_arith)
                requires
                    0 <= r < size,
            ;
            assert((r + 1) * size == r * size + size) by (nonlinear_arith);
            let start: usize = r * size;
            rows.push(&cells[start..start + size]);
            r += 1;
        }
        rows
    }

    /// The rows from top to bottom, each copied into a vector of its own.
    pub fn to_rows(&self) -> (rows: Vec<Vec<Option<u16>>>)
        requires
            self.wf(),
        ensures
            rows@.len() == self@.size,
            forall|r: int|
                0 <= r < self@.size ==> (#[trigger] rows@[r])@ == self@.cells.subrange(
                    r * self@.size,
                    (r + 1) * self@.size,
                ),
    {
        let slices = self.rows();
        let mut rows: Vec<Vec<Option<u16>>> = Vec::new();
        let mut r: usize = 0;
        while r < slices.len()
            invariant
                r <= slices@.len(),
                rows@.len() == r,
                forall|k: int| 0 <= k < r ==> (#[trigger] rows@[k])@ == slices@[k]@,
            decreases slices@.len() - r,
        {
            let slice: &[Option<u16>] = slices[r];
            let mut row: Vec<Option<u16>> = Vec::new();
            let mut c: usize = 0;
            while c < slice.len()
                invariant
                    c <= slice@.len(),
                    row@ == slice@.take(c as int),
                decreases slice@.len() - c,
            {
                row.push(slice[c]);
                assert(row@ =~= slice@.take(c + 1));
                c += 1;
            }
            assert(slice@.take(c as int) == slice@);
            rows.push(row);
            r += 1;
        }
        rows
    }

    /// Whether the tiles ascend in storage order when the blank is skipped,
    /// wherever the blank stands.
    pub fn is_ordered(&self) -> (ordered: bool)
        ensures
            ordered == self@.is_ordered(),
    {
        let mut prev_cell: Option<u16> = None;
        let mut i: usize = 0;
        while i < self.cells.len()
            invariant
                i <= self.cells.len(),
                forall|a: int, b: int|
                    0 <= a < b < i && (#[trigger] self.cells[a]) is Some
                        && (#[trigger] self.cells[b]) is Some ==> self.cells[a].unwrap()
                        < self.cells[b].unwrap(),
                prev_cell is None ==> forall|a: int| 0 <= a < i ==> self.cells[a] is None,
                prev_cell is Some ==> exists|a: int| 0 <= a < i && self.cells[a] == prev_cell,
                prev_cell is Some ==> forall|a: int|
                    0 <= a < i && (#[trigger] self.cells[a]) is Some ==> self.cells[a].unwrap()
                        <= prev_cell.unwrap(),
            decreases self.cells.len() - i,
        {
            match (self.cells[i], prev_cell) {
                (Some(cell_val), Some(prev_cell_val)) => {
                    if cell_val <= prev_cell_val {
                        return false;
                    } else {
                        prev_cell = Some(cell_val);
                    }
                },
                (None, _) => {},
                (Some(cell_val), None) => {
                    prev_cell = Some(cell_val);
                },
            }
            i += 1;
        }
        true
    }

    /// Whether the puzzle is solved: the same test as [`Board::is_ordered`].
    pub fn is_solved(&self) -> (solved: bool)
        ensures
            solved == self@.is_ordered(),
    {
        self.is_ordered()
    }

    /// The side of the board.
    pub fn size(&self) -> (size: u8)
        ensures
            size == self@.size,
    {
        self.size
    }

    /// The cell in row `row` and column `col`, both counted from zero:
    /// `Some` of a tile's number, or `None` for the blank.
    pub fn get(&self, row: u8, col: u8) -> (cell: Option<u16>)
        requires
            self.wf(),
            row * self@.size + col < self@.area(),
        ensures
            cell == self@.cells[row * self@.size + col],
    {
        proof {
            lemma_area_bound(self@);
            assert(row * self.size <= 255 * 255) by (nonlinear_arith)
                requires
                    0 <= row <= 255,
                    0 <= self.size <= 255,
            ;
        }
        self.cells[(row as usize) * (self.size as usize) + (col as usize)]
    }
}

} // verus!
