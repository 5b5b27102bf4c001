//! The 8x8 board: a fixed grid of optional pieces, with the aggregate
//! queries the search relies on (piece count, total capture budget, king
//! presence) and the atomic move-with-capture operation.

use vstd::prelude::*;

use crate::piece::{Piece, PieceType, DEFAULT_MOVE_LEFT};

verus! {

/// Squares per side of the board.
pub const N: usize = 8;

/// Total number of squares.
pub const SIZE: usize = 64;

/// The row-major index of the square at `(r, c)`.
pub open spec fn sq(r: int, c: int) -> int {
    r * 8 + c
}

/// Whether `(r, c)` lies on the board.
pub open spec fn on_board(r: int, c: int) -> bool {
    0 <= r < 8 && 0 <= c < 8
}

/// A board position as specifications see it: 64 optional pieces in
/// row-major order.
pub type Grid = Seq<Option<Piece>>;

/// A well-formed position: exactly 64 squares, every resident piece within
/// its capture budget.
pub open spec fn grid_wf(g: Grid) -> bool {
    &&& g.len() == 64
    &&& forall|i: int| 0 <= i < 64 && g[i] is Some ==> (#[trigger] g[i])->0.wf()
}

/// The number of occupied squares among the first `n`.
pub open spec fn count_to(g: Grid, n: int) -> nat
    decreases n,
{
    if n <= 0 {
        0
    } else {
        count_to(g, n - 1) + if g[n - 1] is Some {
            1nat
        } else {
            0nat
        }
    }
}

/// The number of occupied squares.
pub open spec fn piece_count(g: Grid) -> nat {
    count_to(g, 64)
}

/// The total remaining capture budget among the first `n` squares.
pub open spec fn budget_to(g: Grid, n: int) -> nat
    decreases n,
{
    if n <= 0 {
        0
    } else {
        budget_to(g, n - 1) + if g[n - 1] is Some {
            g[n - 1]->0.budget()
        } else {
            0nat
        }
    }
}

/// The total remaining capture budget on the board.
pub open spec fn budget_sum(g: Grid) -> nat {
    budget_to(g, 64)
}

/// Whether any square holds a King.
pub open spec fn has_king(g: Grid) -> bool {
    exists|i: int| 0 <= i < 64 && (#[trigger] g[i]) is Some && g[i]->0.piece_type == PieceType::King
}

/// Whether exactly one piece remains and it is a King.
pub open spec fn single_is_king(g: Grid) -> bool {
    piece_count(g) == 1 && has_king(g)
}

/// The row-major list of occupied squares with their pieces, restricted to
/// the first `n` squares.
pub open spec fn pieces_to(g: Grid, n: int) -> Seq<(usize, usize, Piece)>
    decreases n,
{
    if n <= 0 {
        Seq::empty()
    } else {
        pieces_to(g, n - 1) + if g[n - 1] is Some {
            seq![(((n - 1) / 8) as usize, ((n - 1) % 8) as usize, g[n - 1]->0)]
        } else {
            Seq::empty()
        }
    }
}

/// Updating square `j` changes `count_to(_, n)` exactly by the occupancy
/// difference at `j`, and only when `j < n`.
pub proof fn lemma_count_to_update(g: Grid, j: int, v: Option<Piece>, n: int)
    requires
        0 <= j < g.len(),
        n <= g.len(),
    ensures
        count_to(g.update(j, v), n) == if j < n {
            count_to(g, n) - (if g[j] is Some {
                1int
            } else {
                0int
            }) + (if v is Some {
                1int
            } else {
                0int
            })
        } else {
            count_to(g, n) as int
        },
    decreases n,
{
    if n > 0 {
        lemma_count_to_update(g, j, v, n - 1);
    }
}

/// Updating square `j` changes `budget_to(_, n)` exactly by the budget
/// difference at `j`, and only when `j < n`.
pub proof fn lemma_budget_to_update(g: Grid, j: int, v: Option<Piece>, n: int)
    requires
        0 <= j < g.len(),
        n <= g.len(),
    ensures
        budget_to(g.update(j, v), n) == budget_to(g, n) - (if j < n && g[j] is Some {
            g[j]->0.budget() as int
        } else {
            0int
        }) + (if j < n && v is Some {
            v->0.budget() as int
        } else {
            0int
        }),
    decreases n,
{
    if n > 0 {
        lemma_budget_to_update(g, j, v, n - 1);
    }
}

/// If some square among the first `n` is occupied, the count is positive.
pub proof fn lemma_count_to_occupied(g: Grid, i: int, n: int)
    requires
        0 <= i < n,
        g[i] is Some,
    ensures
        count_to(g, n) >= 1,
    decreases n,
{
    if i < n - 1 {
        lemma_count_to_occupied(g, i, n - 1);
    }
}

/// The board: 64 squares, each empty or holding one piece.  Boards compare
/// and hash as whole-grid snapshots; `same_position` is the comparison the
/// verified code relies on.
#[derive(Clone, PartialEq, Eq, Hash)]
pub struct Board {
    pub cells: Vec<Option<Piece>>,
}

impl View for Board {
    type V = Grid;

    open spec fn view(&self) -> Grid {
        self.cells@
    }
}

impl Board {
    /// Valid boards hold exactly 64 squares of within-budget pieces.
    pub open spec fn wf(self) -> bool {
        grid_wf(self@)
    }

    /// An empty board.
    pub fn new() -> (b: Board)
        ensures
            b.wf(),
            b@.len() == 64,
            forall|i: int| 0 <= i < 64 ==> b@[i] is None,
    {
        let mut cells: Vec<Option<Piece>> = Vec::new();
        let mut i: usize = 0;
        while i < 64
            invariant
                i <= 64,
                cells@.len() == i,
                forall|j: int| 0 <= j < i ==> cells@[j] is None,
            decreases 64 - i,
        {
            cells.push(None);
            i = i + 1;
        }
        Board { cells }
    }

    /// Place `p` on `(r, c)`, overwriting any resident piece.
    pub fn set_cell(&mut self, r: usize, c: usize, p: Piece)
        requires
            old(self).wf(),
            r < 8,
            c < 8,
            p.wf(),
        ensures
            final(self).wf(),
            final(self)@ == old(self)@.update(sq(r as int, c as int), Some(p)),
    {
        let idx = r * 8 + c;
        self.cells[idx] = Some(p);
    }

    /// Read the piece on `(r, c)`, if any.
    pub fn get_cell(&self, r: usize, c: usize) -> (p: Option<Piece>)
        requires
            self.wf(),
            r < 8,
            c < 8,
        ensures
            p == self@[sq(r as int, c as int)],
    {
        let idx = r * 8 + c;
        self.cells[idx]
    }

    /// Empty the square `(r, c)`.
    pub fn clear_cell(&mut self, r: usize, c: usize)
        requires
            old(self).wf(),
            r < 8,
            c < 8,
        ensures
            final(self).wf(),
            final(self)@ == old(self)@.update(sq(r as int, c as int), None),
    {
        let idx = r * 8 + c;
        self.cells[idx] = None;
    }

    /// Move the piece on `(fr, fc)` to `(tr, tc)`, spending one of its
    /// captures and removing whatever stood on the target square.  The
    /// source square must be occupied; moving a square onto itself is the
    /// one specified no-op.
    pub fn move_piece(&mut self, fr: usize, fc: usize, tr: usize, tc: usize)
        requires
            old(self).wf(),
            fr < 8,
            fc < 8,
            tr < 8,
            tc < 8,
            old(self)@[sq(fr as int, fc as int)] is Some,
        ensures
            final(self).wf(),
            final(self)@ == grid_after_move(old(self)@, fr as int, fc as int, tr as int, tc as int),
    {
        if fr == tr && fc == tc {
            return ;
        }
        if let Some(mut p) = self.get_cell(fr, fc) {
            proof {
                assert(self@[sq(fr as int, fc as int)]->0.wf());
            }
            p.use_move();
            self.set_cell(tr, tc, p);
            self.clear_cell(fr, fc);
        }
    }

    /// All occupied squares with their pieces, in row-major order.
    pub fn pieces(&self) -> (v: Vec<(usize, usize, Piece)>)
        requires
            self.wf(),
        ensures
            v@ == pieces_to(self@, 64),
    {
        let mut v: Vec<(usize, usize, Piece)> = Vec::new();
        let mut i: usize = 0;
        while i < 64
            invariant
                self.wf(),
                i <= 64,
                v@ == pieces_to(self@, i as int),
            decreases 64 - i,
        {
            if let Some(p) = self.cells[i] {
                v.push((i / 8, i % 8, p));
            }
            i = i + 1;
        }
        v
    }

    /// How many pieces stand on the board.
    pub fn count_pieces(&self) -> (n: usize)
        requires
            self.wf(),
        ensures
            n == piece_count(self@),
    {
        let mut n: usize = 0;
        let mut i: usize = 0;
        while i < 64
            invariant
                self.wf(),
                i <= 64,
                n == count_to(self@, i as int),
                n <= i,
            decreases 64 - i,
        {
            if self.cells[i].is_some() {
                n = n + 1;
            }
            i = i + 1;
        }
        n
    }

    /// The total capture budget remaining across all pieces.
    pub fn sum_move_left(&self) -> (s: usize)
        requires
            self.wf(),
        ensures
            s == budget_sum(self@),
    {
        let mut s: usize = 0;
        let mut i: usize = 0;
        while i < 64
            invariant
                self.wf(),
                i <= 64,
                s == budget_to(self@, i as int),
                s <= i * DEFAULT_MOVE_LEFT,
            decreases 64 - i,
        {
            if let Some(p) = self.cells[i] {
                proof {
                    assert(self@[i as int]->0.wf());
                }
                s = s + p.move_left();
            }
            i = i + 1;
        }
        s
    }

    /// Whether any piece on the board is a King.
    pub fn has_king(&self) -> (b: bool)
        requires
            self.wf(),
        ensures
            b == has_king(self@),
    {
        let mut i: usize = 0;
        while i < 64
            invariant
                self.wf(),
                i <= 64,
                forall|j: int| 0 <= j < i ==> !((#[trigger] self@[j]) is Some
                    && self@[j]->0.piece_type == PieceType::King),
            decreases 64 - i,
        {
            if let Some(p) = self.cells[i] {
                if p.is_king() {
                    return true;
                }
            }
            i = i + 1;
        }
        false
    }

    /// Whether exactly one piece remains and it is a King.
    pub fn single_is_king(&self) -> (b: bool)
        requires
            self.wf(),
        ensures
            b == single_is_king(self@),
    {
        self.count_pieces() == 1 && self.has_king()
    }

    /// An independent copy of the position.
    pub fn snapshot(&self) -> (b: Board)
        requires
            self.wf(),
        ensures
            b.wf(),
            b@ == self@,
    {
        let mut cells: Vec<Option<Piece>> = Vec::new();
        let mut i: usize = 0;
        while i < 64
            invariant
                self.wf(),
                i <= 64,
                cells@.len() == i,
                forall|j: int| 0 <= j < i ==> cells@[j] == self@[j],
            decreases 64 - i,
        {
            cells.push(self.cells[i]);
            i = i + 1;
        }
        let b = Board { cells };
        proof {
            assert(b@ =~= self@);
        }
        b
    }

    /// Whether two boards hold exactly the same position, square by square,
    /// budgets included.
    pub fn same_position(&self, other: &Board) -> (r: bool)
        requires
            self.wf(),
            other.wf(),
        ensures
            r <==> self@ =~= other@,
    {
        let mut i: usize = 0;
        while i < 64
            invariant
                self.wf(),
                other.wf(),
                i <= 64,
                forall|j: int| 0 <= j < i ==> self@[j] == other@[j],
            decreases 64 - i,
        {
            let same = match (self.cells[i], other.cells[i]) {
                (None, None) => true,
                (Some(p), Some(q)) => p == q,
                _ => false,
            };
            if !same {
                return false;
            }
            i = i + 1;
        }
        true
    }
}

/// The position after `move_piece(fr, fc, tr, tc)`: a no-op when the
/// square moves onto itself; otherwise the source piece, with one capture
/// spent, lands on the target and the source empties.
pub open spec fn grid_after_move(g: Grid, fr: int, fc: int, tr: int, tc: int) -> Grid {
    if fr == tr && fc == tc {
        g
    } else {
        let p = g[sq(fr, fc)]->0;
        g.update(sq(tr, tc), Some(spend_capture(p))).update(sq(fr, fc), None)
    }
}

/// `p` after one capture: the same kind with one fewer capture available,
/// saturating at zero.
pub open spec fn spend_capture(p: Piece) -> Piece {
    Piece {
        move_left: if p.budget() == 0 {
            0
        } else {
            (p.move_left - 1) as usize
        },
        piece_type: p.piece_type,
    }
}

} // verus!
