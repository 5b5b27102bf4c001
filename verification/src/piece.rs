//! Piece kinds and the per-piece capture budget.

use vstd::prelude::*;

verus! {

/// Every piece starts a puzzle with this many captures available.
pub const DEFAULT_MOVE_LEFT: usize = 2;

/// The six standard chess piece kinds.
#[derive(Clone, Copy, PartialEq, Eq, Structural, Debug, Hash)]
pub enum PieceType {
    King,
    Queen,
    Bishop,
    Rook,
    Knight,
    Pawn,
}

/// A piece on the board: its kind plus how many captures it may still make.
#[derive(Clone, Copy, PartialEq, Eq, Structural, Debug, Hash)]
pub struct Piece {
    pub move_left: usize,
    pub piece_type: PieceType,
}

impl Piece {
    /// The capture budget never exceeds its starting value: pieces are
    /// created with `DEFAULT_MOVE_LEFT` captures and the budget only ever
    /// decreases.
    pub open spec fn wf(self) -> bool {
        self.move_left <= DEFAULT_MOVE_LEFT
    }

    /// The remaining capture budget, as seen by specifications.
    pub open spec fn budget(self) -> nat {
        self.move_left as nat
    }

    pub fn new(piece_type: PieceType) -> (p: Piece)
        ensures
            p.wf(),
            p.budget() == DEFAULT_MOVE_LEFT,
            p.piece_type == piece_type,
    {
        Piece { move_left: DEFAULT_MOVE_LEFT, piece_type }
    }

    /// Spend one capture; the budget saturates at zero rather than
    /// wrapping below it.
    pub fn use_move(&mut self)
        ensures
            final(self).piece_type == old(self).piece_type,
            final(self).budget() == if old(self).budget() == 0 {
                0nat
            } else {
                (old(self).budget() - 1) as nat
            },
            old(self).wf() ==> final(self).wf(),
    {
        self.move_left = if self.move_left == 0 {
            0
        } else {
            self.move_left - 1
        };
    }

    pub fn move_left(&self) -> (n: usize)
        ensures
            n == self.budget(),
    {
        self.move_left
    }

    pub fn is_king(&self) -> (b: bool)
        ensures
            b == (self.piece_type == PieceType::King),
    {
        matches!(self.piece_type, PieceType::King)
    }

    /// The single-letter notation token of the piece's kind.
    pub fn letter(&self) -> (s: String)
        ensures
            s@ == letter_spec(self.piece_type),
    {
        self.piece_type.letter()
    }
}

impl PieceType {
    /// The single-letter notation token for the piece kind: `K`, `Q`,
    /// `B`, `R`, `N`, and the empty token for a pawn.
    pub fn letter(&self) -> (s: String)
        ensures
            s@ == letter_spec(*self),
    {
        proof {
            reveal_strlit("K");
            reveal_strlit("Q");
            reveal_strlit("B");
            reveal_strlit("R");
            reveal_strlit("N");
            reveal_strlit("");
        }
        match self {
            PieceType::King => "K".to_owned(),
            PieceType::Queen => "Q".to_owned(),
            PieceType::Bishop => "B".to_owned(),
            PieceType::Rook => "R".to_owned(),
            PieceType::Knight => "N".to_owned(),
            PieceType::Pawn => "".to_owned(),
        }
    }
}

/// The notation letter of each piece kind; a pawn has none.
pub open spec fn letter_spec(t: PieceType) -> Seq<char> {
    match t {
        PieceType::King => seq!['K'],
        PieceType::Queen => seq!['Q'],
        PieceType::Bishop => seq!['B'],
        PieceType::Rook => seq!['R'],
        PieceType::Knight => seq!['N'],
        PieceType::Pawn => Seq::<char>::empty(),
    }
}

} // verus!
