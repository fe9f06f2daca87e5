//! The line-mode surface: command lines in, the board as text out.

use vstd::prelude::*;
use vstd::string::StrSliceExecFns;
use vstd::string::StringExecFns;
use crate::board::Board;
use crate::grid::{Grid, Move, lemma_area_bound};

verus! {

/// What a command line asks for.
#[derive(Debug)]
pub enum Cmd {
    /// The moves to attempt, in the order they were typed.
    Moves(Vec<Move>),
    /// End the game.
    Quit,
}

/// The move that a typed character stands for, if any: `w`, `a`, `s`, `d`
/// for `Up`, `Left`, `Down`, `Right`.
pub open spec fn char_move(c: char) -> Option<Move> {
    if c == 'w' {
        Some(Move::Up)
    } else if c == 'a' {
        Some(Move::Left)
    } else if c == 's' {
        Some(Move::Down)
    } else if c == 'd' {
        Some(Move::Right)
    } else {
        None
    }
}

/// The moves that the characters of `text` stand for, in order; a
/// character that stands for none is passed over.
pub open spec fn moves_of(text: Seq<char>) -> Seq<Move>
    decreases text.len(),
{
    if text.len() == 0 {
        seq![]
    } else {
        match char_move(text.last()) {
            Some(mv) => moves_of(text.drop_last()).push(mv),
            None => moves_of(text.drop_last()),
        }
    }
}

/// Reads a command line. A `q` anywhere in it means `Quit`, whatever else
/// the line holds; without one the line is the moves that it spells.
pub fn parse_cmd(s: &str) -> (cmd: Cmd)
    ensures
        s@.contains('q') <==> cmd is Quit,
        cmd matches Cmd::Moves(moves) ==> moves@ == moves_of(s@),
{
    let mut moves: Vec<Move> = Vec::new();
    for c in it: s.chars()
        invariant
            it.seq() == s@,
            !s@.take(it.index()).contains('q'),
            moves@ == moves_of(s@.take(it.index())),
    {
        proof {
            assert(s@.take(it.index() + 1).drop_last() == s@.take(it.index()));
        }
        match c {
            'w' => {
                moves.push(Move::Up);
            },
            'a' => {
                moves.push(Move::Left);
            },
            's' => {
                moves.push(Move::Down);
            },
            'd' => {
                moves.push(Move::Right);
            },
            'q' => {
                return Cmd::Quit;
            },
            _ => {},
        }
    }
    assert(s@.take(s@.len() as int) == s@);
    Cmd::Moves(moves)
}

/// The character of a decimal digit.
pub open spec fn digit_char(d: int) -> char {
    if d == 0 {
        '0'
    } else if d == 1 {
        '1'
    } else if d == 2 {
        '2'
    } else if d == 3 {
        '3'
    } else if d == 4 {
        '4'
    } else if d == 5 {
        '5'
    } else if d == 6 {
        '6'
    } else if d == 7 {
        '7'
    } else if d == 8 {
        '8'
    } else {
        '9'
    }
}

/// A number in decimal, without leading zeros.
pub open spec fn decimal(n: nat) -> Seq<char>
    decreases n,
{
    if n < 10 {
        seq![digit_char(n as int)]
    } else {
        decimal(n / 10).push(digit_char((n % 10) as int))
    }
}

/// `count` spaces.
pub open spec fn spaces(count: nat) -> Seq<char> {
    Seq::new(count, |k: int| ' ')
}

/// `text` behind as many spaces as bring it to `width` characters; a text
/// that is already as wide or wider stays as it is.
pub open spec fn right_aligned(text: Seq<char>, width: nat) -> Seq<char> {
    if text.len() < width {
        spaces((width - text.len()) as nat) + text
    } else {
        text
    }
}

/// A cell as text: a tile's number right-aligned in four characters, four
/// spaces for the blank.
pub open spec fn cell_text(cell: Option<u16>) -> Seq<char> {
    match cell {
        Some(value) => right_aligned(decimal(value as nat), 4),
        None => spaces(4),
    }
}

/// The texts of `cells` one after the other.
pub open spec fn cells_text(cells: Seq<Option<u16>>) -> Seq<char>
    decreases cells.len(),
{
    if cells.len() == 0 {
        seq![]
    } else {
        cells_text(cells.drop_last()) + cell_text(cells.last())
    }
}

/// The first `rows` rows of `g` as text: each row is the texts of its cells
/// and then two line ends, which leaves an empty line below it.
pub open spec fn rows_text(g: Grid, rows: int) -> Seq<char>
    decreases rows,
{
    if rows <= 0 {
        seq![]
    } else {
        rows_text(g, rows - 1) + cells_text(g.cells.subrange((rows - 1) * g.size, rows * g.size))
            + seq!['\n', '\n']
    }
}

/// The whole of `g` as text.
pub open spec fn board_text(g: Grid) -> Seq<char> {
    rows_text(g, g.size)
}

fn digit_str(d: u16) -> (text: &'static str)
    requires
        d < 10,
    ensures
        text@ == seq![digit_char(d as int)],
{
    proof {
        reveal_strlit("0");
        reveal_strlit("1");
        reveal_strlit("2");
        reveal_strlit("3");
        reveal_strlit("4");
        reveal_strlit("5");
        reveal_strlit("6");
        reveal_strlit("7");
        reveal_strlit("8");
        reveal_strlit("9");
    }
    let text = match d {
        0 => "0",
        1 => "1",
        2 => "2",
        3 => "3",
        4 => "4",
        5 => "5",
        6 => "6",
        7 => "7",
        8 => "8",
        _ => "9",
    };
    assert(text@ =~= seq![digit_char(d as int)]);
    text
}

/// Appends `n` in decimal to `out`.
fn push_decimal(out: &mut String, n: u16)
    ensures
        final(out)@ == old(out)@ + decimal(n as nat),
    decreases n,
{
    if n >= 10 {
        push_decimal(out, n / 10);
    }
    out.append(digit_str(n % 10));
    assert(out@ =~= old(out)@ + decimal(n as nat));
}

/// Appends a cell to `out`, as [`cell_text`] writes it.
fn push_cell(out: &mut String, cell: Option<u16>)
    ensures
        final(out)@ == old(out)@ + cell_text(cell),
{
    proof {
        reveal_strlit(" ");
        reveal_strlit("    ");
    }
    match cell {
        Some(value) => {
            let mut digits = String::new();
            push_decimal(&mut digits, value);
            assert(digits@ =~= decimal(value as nat));
            let width: usize = digits.as_str().unicode_len();
            let mut filled: usize = width;
            assert(out@ =~= old(out)@ + spaces(0));
            while filled < 4
                invariant
                    filled >= width,
                    width == decimal(value as nat).len(),
                    width < 4 ==> filled <= 4,
                    width >= 4 ==> filled == width,
                    out@ == old(out)@ + spaces((filled - width) as nat),
                decreases 4 - filled,
            {
                proof {
                    reveal_strlit(" ");
                }
                out.append(" ");
                filled += 1;
                assert(out@ =~= old(out)@ + spaces((filled - width) as nat));
            }
            let ghost padding = spaces((filled - width) as nat);
            out.append(digits.as_str());
            assert(padding + digits@ =~= right_aligned(digits@, 4));
            assert(out@ =~= old(out)@ + (padding + digits@));
        },
        None => {
            out.append("    ");
            assert(out@ =~= old(out)@ + cell_text(cell));
        },
    }
}

/// The board as text: row after row, every cell four characters wide (a
/// number of five digits takes five), an empty line after each row.
pub fn display_board(board: &Board) -> (text: String)
    requires
        board.wf(),
    ensures
        text@ == board_text(board@),
{
    let rows = board.rows();
    let mut text = String::new();
    let mut r: usize = 0;
    while r < rows.len()
        invariant
            r <= rows@.len(),
            rows@.len() == board@.size,
            forall|k: int|
                0 <= k < board@.size ==> (#[trigger] rows@[k])@ == board@.cells.subrange(
                    k * board@.size,
                    (k + 1) * board@.size,
                ),
            text@ == rows_text(board@, r as int),
        decreases rows@.len() - r,
    {
        let row: &[Option<u16>] = rows[r];
        let ghost before = text@;
        let mut c: usize = 0;
        while c < row.len()
            invariant
                c <= row@.len(),
                text@ == before + cells_text(row@.take(c as int)),
            decreases row@.len() - c,
        {
            assert(row@.take(c + 1).drop_last() == row@.take(c as int));
            push_cell(&mut text, row[c]);
            c += 1;
        }
        proof {
            reveal_strlit("\n");
            assert(row@.take(c as int) == row@);
            assert(row@ == board@.cells.subrange(r * board@.size, (r + 1) * board@.size));
        }
        text.append("\n");
        text.append("\n");
        assert(text@ =~= rows_text(board@, r + 1));
        r += 1;
    }
    text
}

/// What is written before every command line is read.
pub const PROMPT: &'static str = "Slide into direction [w, a, s, d], q - for quit: ";

/// What is written below a board that is in order.
pub const SOLVED: &'static str = "Puzzle is solved!\n\n";

/// What is written after a command line took the game to `g`: the board,
/// and below a board in order the word that it is solved.
pub open spec fn reply_text(g: Grid) -> Seq<char> {
    if g.is_ordered() {
        board_text(g) + SOLVED@
    } else {
        board_text(g)
    }
}

/// One turn of the game. A line that asks to quit leaves the board alone
/// and gives `None`: the game is over. Any other line has its moves
/// attempted in order, and the text to write comes back.
pub fn respond(board: &mut Board, line: &str) -> (reply: Option<String>)
    requires
        old(board).wf(),
    ensures
        final(board).wf(),
        line@.contains('q') <==> reply is None,
        reply is None ==> final(board)@ == old(board)@,
        reply is Some ==> final(board)@ == old(board)@.run(moves_of(line@)),
        reply is Some ==> reply.unwrap()@ == reply_text(final(board)@),
{
    match parse_cmd(line) {
        Cmd::Moves(moves) => {
            board.move_many(moves.as_slice());
            let mut text = display_board(board);
            if board.is_ordered() {
                text.append(SOLVED);
            }
            Some(text)
        },
        Cmd::Quit => None,
    }
}

} // verus!
