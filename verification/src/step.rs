//! One move of a solution: a capture from one square to another.

use vstd::prelude::*;

use crate::cell::{file_char, file_str, rank_char, rank_str};
use crate::piece::{letter_spec, PieceType};

verus! {

/// A single capture move.  The `to` square was occupied before the move and
/// holds the moving piece afterwards; the `from` square becomes empty.
#[derive(Debug, Copy, Clone, PartialEq, Eq, Hash)]
pub struct Step {
    pub from: (usize, usize),
    pub to: (usize, usize),
    pub piece_type: PieceType,
}

/// The notation token of a move: the piece letter, the origin square, an
/// `x` for the capture, and the target square, with ranks counted from the
/// top row down (row 0 prints as rank 8).
pub open spec fn san_spec(s: Step) -> Seq<char> {
    letter_spec(s.piece_type) + seq![
        file_char(s.from.1 as int),
        rank_char(7 - s.from.0 as int),
        'x',
        file_char(s.to.1 as int),
        rank_char(7 - s.to.0 as int),
    ]
}

impl Step {
    /// Render the move as an algebraic-notation-like token such as
    /// `Qd3xb1`, for displays that draw row 0 at the top of the board.
    pub fn to_san(&self) -> (s: String)
        requires
            self.from.0 < 8,
            self.from.1 < 8,
            self.to.0 < 8,
            self.to.1 < 8,
        ensures
            s@ == san_spec(*self),
    {
        proof {
            reveal_strlit("x");
        }
        let mut out = self.piece_type.letter();
        out.append(file_str(self.from.1));
        out.append(rank_str(7 - self.from.0));
        out.append("x");
        out.append(file_str(self.to.1));
        out.append(rank_str(7 - self.to.0));
        proof {
            assert(out@ =~= san_spec(*self));
        }
        out
    }
}

} // verus!
