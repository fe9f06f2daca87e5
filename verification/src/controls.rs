//! Keys and touches: what a pointing or typing player means by them.

use vstd::prelude::*;
use crate::board::Board;
use crate::grid::{Grid, Move};

verus! {

/// Whether two texts are the same, character for character.
fn same_text(a: &str, b: &str) -> (same: bool)
    ensures
        same == (a@ == b@),
{
    proof {
        vstd::utf8::encode_utf8_decode_utf8(a@);
        vstd::utf8::encode_utf8_decode_utf8(b@);
    }
    let xs = a.as_bytes();
    let ys = b.as_bytes();
    if xs.len() != ys.len() {
        return false;
    }
    let mut i: usize = 0;
    while i < xs.len()
        invariant
            xs@ == vstd::utf8::encode_utf8(a@),
            ys@ == vstd::utf8::encode_utf8(b@),
            xs@.len() == ys@.len(),
            i <= xs@.len(),
            xs@.take(i as int) == ys@.take(i as int),
        decreases xs@.len() - i,
    {
        if xs[i] != ys[i] {
            return false;
        }
        assert(xs@.take(i + 1) =~= xs@.take(i as int).push(xs@[i as int]));
        assert(ys@.take(i + 1) =~= ys@.take(i as int).push(ys@[i as int]));
        i += 1;
    }
    assert(xs@ =~= xs@.take(i as int) && ys@ =~= ys@.take(i as int));
    true
}

/// The move that an arrow key stands for, by the key's name; no other key
/// stands for one.
pub open spec fn key_move_of(key: Seq<char>) -> Option<Move> {
    if key == "ArrowLeft"@ {
        Some(Move::Left)
    } else if key == "ArrowRight"@ {
        Some(Move::Right)
    } else if key == "ArrowUp"@ {
        Some(Move::Up)
    } else if key == "ArrowDown"@ {
        Some(Move::Down)
    } else {
        None
    }
}

/// The move that the key named `key` stands for.
pub fn key_move(key: &str) -> (mv: Option<Move>)
    ensures
        mv == key_move_of(key@),
{
    if same_text(key, "ArrowLeft") {
        Some(Move::Left)
    } else if same_text(key, "ArrowRight") {
        Some(Move::Right)
    } else if same_text(key, "ArrowUp") {
        Some(Move::Up)
    } else if same_text(key, "ArrowDown") {
        Some(Move::Down)
    } else {
        None
    }
}

/// A finger on the screen: which one, and where.
#[derive(Clone, Copy, Debug, PartialEq, Eq, Structural)]
pub struct Touch {
    pub id: i32,
    pub x: i32,
    pub y: i32,
}

/// The distance between two numbers.
pub open spec fn span(d: int) -> int {
    if d < 0 {
        -d
    } else {
        d
    }
}

/// The move that a swipe from `start` to `end` stands for. The two must be
/// the same finger. The axis along which it went further decides: to the
/// right `Right`, to the left `Left`, downwards `Down`, upwards `Up`. A
/// swipe that went equally far along both, or nowhere, stands for none.
pub open spec fn swipe_move_of(start: Touch, end: Touch) -> Option<Move> {
    let dx = end.x - start.x;
    let dy = end.y - start.y;
    if end.id != start.id {
        None
    } else if span(dx) > span(dy) {
        if dx > 0 {
            Some(Move::Right)
        } else {
            Some(Move::Left)
        }
    } else if span(dx) < span(dy) {
        if dy > 0 {
            Some(Move::Down)
        } else {
            Some(Move::Up)
        }
    } else {
        None
    }
}

/// The move that a swipe from `start` to `end` stands for.
pub fn swipe_move(start: Touch, end: Touch) -> (mv: Option<Move>)
    ensures
        mv == swipe_move_of(start, end),
{
    if end.id != start.id {
        return None;
    }
    let diff_x: i64 = end.x as i64 - start.x as i64;
    let diff_y: i64 = end.y as i64 - start.y as i64;
    let far_x: i64 = if diff_x < 0 { -diff_x } else { diff_x };
    let far_y: i64 = if diff_y < 0 { -diff_y } else { diff_y };
    if far_x > far_y {
        if diff_x > 0 {
            Some(Move::Right)
        } else {
            Some(Move::Left)
        }
    } else if far_x < far_y {
        if diff_y > 0 {
            Some(Move::Down)
        } else {
            Some(Move::Up)
        }
    } else {
        None
    }
}

/// The grid after `mv` was asked for on `g` by key or touch: a board that
/// is in order takes no more moves, and no move is none.
pub open spec fn after_input(g: Grid, mv: Option<Move>) -> Grid {
    match mv {
        Some(mv) if !g.is_ordered() => g.step(mv),
        _ => g,
    }
}

/// Whether `mv`, asked for on `g` by key or touch, moves a tile.
pub open spec fn input_moves(g: Grid, mv: Option<Move>) -> bool {
    match mv {
        Some(mv) => !g.is_ordered() && g.legal(mv),
        None => false,
    }
}

/// The touch state of a player: the finger that is down, if one is.
pub struct Controls {
    pub touch: Option<Touch>,
}

impl Controls {
    /// No finger is down.
    pub fn new() -> (controls: Controls)
        ensures
            controls.touch is None,
    {
        Controls { touch: None }
    }

    /// A key went down. Says whether a tile moved.
    pub fn key_down(&self, board: &mut Board, key: &str) -> (moved: bool)
        requires
            old(board).wf(),
        ensures
            final(board).wf(),
            final(board)@ == after_input(old(board)@, key_move_of(key@)),
            moved == input_moves(old(board)@, key_move_of(key@)),
    {
        if board.is_solved() {
            return false;
        }
        match key_move(key) {
            Some(mv) => board.move_once(mv),
            None => false,
        }
    }

    /// A finger came down. It is remembered, unless the board is in order.
    pub fn touch_start(&mut self, board: &Board, touch: Touch)
        ensures
            final(self).touch == if board@.is_ordered() {
                old(self).touch
            } else {
                Some(touch)
            },
    {
        if board.is_solved() {
            return ;
        }
        self.touch = Some(touch);
    }

    /// A finger was lifted. Where it is the finger that came down, the
    /// swipe between the two is read as a move and the finger forgotten.
    /// Another finger, or a board in order, changes nothing. Says whether a
    /// tile moved.
    pub fn touch_end(&mut self, board: &mut Board, touch: Touch) -> (moved: bool)
        requires
            old(board).wf(),
        ensures
            final(board).wf(),
            final(board)@ == after_input(old(board)@, old(self).swipe(touch)),
            moved == input_moves(old(board)@, old(self).swipe(touch)),
            final(self).touch == if old(self).hears(old(board)@, touch) {
                None
            } else {
                old(self).touch
            },
    {
        if board.is_solved() {
            return false;
        }
        match self.touch {
            Some(start) => {
                if touch.id != start.id {
                    return false;
                }
                let moved = match swipe_move(start, touch) {
                    Some(mv) => board.move_once(mv),
                    None => false,
                };
                self.touch = None;
                moved
            },
            None => false,
        }
    }

    /// The move that lifting `touch` stands for.
    pub open spec fn swipe(&self, touch: Touch) -> Option<Move> {
        match self.touch {
            Some(start) => swipe_move_of(start, touch),
            None => None,
        }
    }

    /// Whether lifting `touch` ends the swipe that is under way.
    pub open spec fn hears(&self, g: Grid, touch: Touch) -> bool {
        !g.is_ordered() && self.touch is Some && self.touch.unwrap().id == touch.id
    }
}

} // verus!
