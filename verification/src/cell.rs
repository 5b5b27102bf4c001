//! A named square of the chessboard, with its algebraic-notation name.

use vstd::prelude::*;

use crate::piece::{Piece, DEFAULT_MOVE_LEFT};

verus! {

/// The file letter of column `c`, `a` through `h` left to right.
pub open spec fn file_char(c: int) -> char {
    if c == 0 {
        'a'
    } else if c == 1 {
        'b'
    } else if c == 2 {
        'c'
    } else if c == 3 {
        'd'
    } else if c == 4 {
        'e'
    } else if c == 5 {
        'f'
    } else if c == 6 {
        'g'
    } else {
        'h'
    }
}

/// The rank digit of row `r`, `1` through `8` bottom to top.
pub open spec fn rank_char(r: int) -> char {
    if r == 0 {
        '1'
    } else if r == 1 {
        '2'
    } else if r == 2 {
        '3'
    } else if r == 3 {
        '4'
    } else if r == 4 {
        '5'
    } else if r == 5 {
        '6'
    } else if r == 6 {
        '7'
    } else {
        '8'
    }
}

/// The algebraic name of the square at `(r, c)`: file letter then rank
/// digit, `a1` for `(0, 0)` up to `h8` for `(7, 7)`.
pub open spec fn notation_spec(r: int, c: int) -> Seq<char> {
    seq![file_char(c), rank_char(r)]
}

/// One square of the board.  Coordinates are 0-indexed with `(0, 0)` at the
/// bottom-left (`a1`) and `(7, 7)` at the top-right (`h8`).
#[derive(Clone, Copy, PartialEq, Eq)]
pub struct Cell {
    pub row: usize,
    pub col: usize,
    pub piece: Option<Piece>,
    pub used_capture: usize,
}

impl Cell {
    pub fn new(row: usize, col: usize) -> (cell: Cell)
        ensures
            cell.row == row,
            cell.col == col,
            cell.piece is None,
            cell.used_capture == DEFAULT_MOVE_LEFT,
    {
        Cell { row, col, piece: None, used_capture: DEFAULT_MOVE_LEFT }
    }

    pub fn clear_cell(&mut self)
        ensures
            *final(self) == (Cell { piece: None, ..*old(self) }),
    {
        self.piece = None;
    }

    pub fn set_cell(&mut self, piece: Piece)
        ensures
            *final(self) == (Cell { piece: Some(piece), ..*old(self) }),
    {
        self.piece = Some(piece);
    }

    pub fn piece(&self) -> (p: Option<Piece>)
        ensures
            p == self.piece,
    {
        self.piece
    }

    /// The square's algebraic name, such as `e4`.
    pub fn notation(&self) -> (s: String)
        requires
            self.row < 8,
            self.col < 8,
        ensures
            s@ == notation_spec(self.row as int, self.col as int),
    {
        let file = file_str(self.col);
        let rank = rank_str(self.row);
        let s = file.to_owned().concat(rank);
        proof {
            assert(s@ =~= notation_spec(self.row as int, self.col as int));
        }
        s
    }
}

/// The file letter of column `c` as a one-character string.
pub fn file_str(c: usize) -> (s: &'static str)
    requires
        c < 8,
    ensures
        s@ == seq![file_char(c as int)],
{
    proof {
        reveal_strlit("a");
        reveal_strlit("b");
        reveal_strlit("c");
        reveal_strlit("d");
        reveal_strlit("e");
        reveal_strlit("f");
        reveal_strlit("g");
        reveal_strlit("h");
    }
    let s: &'static str = match c {
        0 => "a",
        1 => "b",
        2 => "c",
        3 => "d",
        4 => "e",
        5 => "f",
        6 => "g",
        _ => "h",
    };
    proof {
        assert(s@ =~= seq![file_char(c as int)]);
    }
    s
}

/// The rank digit of row `r` as a one-character string.
pub fn rank_str(r: usize) -> (s: &'static str)
    requires
        r < 8,
    ensures
        s@ == seq![rank_char(r as int)],
{
    proof {
        reveal_strlit("1");
        reveal_strlit("2");
        reveal_strlit("3");
        reveal_strlit("4");
        reveal_strlit("5");
        reveal_strlit("6");
        reveal_strlit("7");
        reveal_strlit("8");
    }
    let s: &'static str = match r {
        0 => "1",
        1 => "2",
        2 => "3",
        3 => "4",
        4 => "5",
        5 => "6",
        6 => "7",
        _ => "8",
    };
    proof {
        assert(s@ =~= seq![rank_char(r as int)]);
    }
    s
}

} // verus!
