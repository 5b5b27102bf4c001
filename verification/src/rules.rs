//! The rules of solo chess as a mathematical model: which capture moves a
//! position allows, what applying a move does, when a move sequence solves
//! a position.  The move generator and the search engine are specified and
//! proved against these definitions.

use vstd::prelude::*;

use crate::board::{
    budget_sum, grid_after_move, grid_wf, has_king, lemma_budget_to_update, lemma_count_to_update,
    on_board, piece_count, single_is_king, spend_capture, sq, Grid,
};
use crate::piece::{Piece, PieceType};
use crate::step::Step;

verus! {

/// Whether the piece kind slides: it may travel any distance along one of
/// its directions, stopped by the first occupied square.
pub open spec fn slides(t: PieceType) -> bool {
    t == PieceType::Queen || t == PieceType::Bishop || t == PieceType::Rook
}

/// How many movement directions the piece kind has.
pub open spec fn dir_count(t: PieceType) -> int {
    match t {
        PieceType::King => 8,
        PieceType::Queen => 8,
        PieceType::Bishop => 4,
        PieceType::Rook => 4,
        PieceType::Knight => 8,
        PieceType::Pawn => 2,
    }
}

/// The shared direction table of kings, queens, bishops, rooks and pawns:
/// the four diagonals first, then the four orthogonals.  A bishop uses the
/// first four entries, a rook the last four, and a pawn the first two (the
/// puzzle has no pawn push: every move captures, and a single-sided pawn
/// attacks along two diagonals).
pub open spec fn slider_dir(i: int) -> (int, int) {
    if i == 0 {
        (-1, 1)
    } else if i == 1 {
        (-1, -1)
    } else if i == 2 {
        (1, -1)
    } else if i == 3 {
        (1, 1)
    } else if i == 4 {
        (0, 1)
    } else if i == 5 {
        (0, -1)
    } else if i == 6 {
        (1, 0)
    } else {
        (-1, 0)
    }
}

/// The eight L-shaped knight offsets.
pub open spec fn knight_dir(i: int) -> (int, int) {
    if i == 0 {
        (2, 1)
    } else if i == 1 {
        (-2, 1)
    } else if i == 2 {
        (2, -1)
    } else if i == 3 {
        (-2, -1)
    } else if i == 4 {
        (1, 2)
    } else if i == 5 {
        (-1, 2)
    } else if i == 6 {
        (1, -2)
    } else {
        (-1, -2)
    }
}

/// The `i`-th movement direction of piece kind `t`.
pub open spec fn dir_of(t: PieceType, i: int) -> (int, int) {
    match t {
        PieceType::Knight => knight_dir(i),
        PieceType::Rook => slider_dir(i + 4),
        _ => slider_dir(i),
    }
}

/// The square `j` steps from `(fr, fc)` along `(dr, dc)`.
pub open spec fn ray_cell(g: Grid, fr: int, fc: int, dr: int, dc: int, j: int) -> Option<Piece> {
    g[sq(fr + j * dr, fc + j * dc)]
}

/// All squares strictly between the origin and the `k`-th square along the
/// ray are empty.
pub open spec fn path_clear(g: Grid, fr: int, fc: int, dr: int, dc: int, k: int) -> bool {
    forall|j: int| 1 <= j < k ==> ray_cell(g, fr, fc, dr, dc, j) is None
}

/// A capture is available `k` steps along `(dr, dc)` from `(fr, fc)`: the
/// target square is on the board and holds a piece other than a King, the
/// squares before it are empty, and the distance is one unless the piece
/// slides.
pub open spec fn dir_capture(
    g: Grid,
    t: PieceType,
    fr: int,
    fc: int,
    dr: int,
    dc: int,
    k: int,
) -> bool {
    &&& 1 <= k
    &&& (k == 1 || slides(t))
    &&& on_board(fr + k * dr, fc + k * dc)
    &&& ray_cell(g, fr, fc, dr, dc, k) is Some
    &&& ray_cell(g, fr, fc, dr, dc, k)->0.piece_type != PieceType::King
    &&& path_clear(g, fr, fc, dr, dc, k)
}

/// A piece of kind `t` standing on `(fr, fc)` can capture on `(tr, tc)`.
pub open spec fn reaches(g: Grid, t: PieceType, fr: int, fc: int, tr: int, tc: int) -> bool {
    exists|i: int, k: int|
        {
            &&& 0 <= i < dir_count(t)
            &&& #[trigger] dir_capture(g, t, fr, fc, dir_of(t, i).0, dir_of(t, i).1, k)
            &&& tr == fr + k * dir_of(t, i).0
            &&& tc == fc + k * dir_of(t, i).1
        }
}

/// At most one capture is available along a direction: the first occupied
/// square settles the distance.
pub proof fn lemma_dir_capture_unique(
    g: Grid,
    t: PieceType,
    fr: int,
    fc: int,
    dr: int,
    dc: int,
    k1: int,
    k2: int,
)
    requires
        dir_capture(g, t, fr, fc, dr, dc, k1),
        dir_capture(g, t, fr, fc, dr, dc, k2),
    ensures
        k1 == k2,
{
    if k1 < k2 {
        assert(ray_cell(g, fr, fc, dr, dc, k1) is None);
    } else if k2 < k1 {
        assert(ray_cell(g, fr, fc, dr, dc, k2) is None);
    }
}

/// The move `s` is a legal capture on position `g`: its origin holds a
/// piece of the recorded kind with capture budget left, its target holds a
/// piece other than a King, and the piece's movement rules allow the jump.
pub open spec fn legal_capture(g: Grid, s: Step) -> bool {
    let fr = s.from.0 as int;
    let fc = s.from.1 as int;
    let tr = s.to.0 as int;
    let tc = s.to.1 as int;
    &&& on_board(fr, fc)
    &&& on_board(tr, tc)
    &&& (fr, fc) != (tr, tc)
    &&& g[sq(fr, fc)] is Some
    &&& g[sq(fr, fc)]->0.piece_type == s.piece_type
    &&& g[sq(fr, fc)]->0.budget() > 0
    &&& g[sq(tr, tc)] is Some
    &&& g[sq(tr, tc)]->0.piece_type != PieceType::King
    &&& reaches(g, s.piece_type, fr, fc, tr, tc)
}

/// The position after playing `s`.
pub open spec fn apply_step(g: Grid, s: Step) -> Grid {
    grid_after_move(g, s.from.0 as int, s.from.1 as int, s.to.0 as int, s.to.1 as int)
}

/// The position after playing a whole move sequence, oldest move first.
pub open spec fn replay(g: Grid, trail: Seq<Step>) -> Grid
    decreases trail.len(),
{
    if trail.len() == 0 {
        g
    } else {
        replay(apply_step(g, trail[0]), trail.drop_first())
    }
}

/// Every move of the sequence is a legal capture on the position it is
/// played from.
pub open spec fn trail_ok(g: Grid, trail: Seq<Step>) -> bool
    decreases trail.len(),
{
    trail.len() == 0 || (legal_capture(g, trail[0]) && trail_ok(
        apply_step(g, trail[0]),
        trail.drop_first(),
    ))
}

/// The position is won: one piece remains, and when a King must survive
/// the survivor is the King.
pub open spec fn goal(g: Grid, king_required: bool) -> bool {
    if king_required {
        single_is_king(g)
    } else {
        piece_count(g) == 1
    }
}

/// Some legal move sequence wins from this position.
pub open spec fn solvable(g: Grid, king_required: bool) -> bool {
    exists|trail: Seq<Step>| #[trigger] trail_ok(g, trail) && goal(replay(g, trail), king_required)
}

/// Distinct on-board coordinates name distinct row-major squares.
pub proof fn lemma_sq_distinct(r1: int, c1: int, r2: int, c2: int)
    requires
        on_board(r1, c1),
        on_board(r2, c2),
        (r1, c1) != (r2, c2),
    ensures
        sq(r1, c1) != sq(r2, c2),
{
}

/// Equal row-major squares name equal on-board coordinates.
pub proof fn lemma_sq_same(r1: int, c1: int, r2: int, c2: int)
    requires
        on_board(r1, c1),
        on_board(r2, c2),
        sq(r1, c1) == sq(r2, c2),
    ensures
        r1 == r2,
        c1 == c2,
{
}

/// A legal capture involves two occupied squares, so at least two pieces.
pub proof fn lemma_legal_two_pieces(g: Grid, s: Step)
    requires
        grid_wf(g),
        legal_capture(g, s),
    ensures
        piece_count(g) >= 2,
{
    let fi = sq(s.from.0 as int, s.from.1 as int);
    let ti = sq(s.to.0 as int, s.to.1 as int);
    lemma_sq_distinct(s.from.0 as int, s.from.1 as int, s.to.0 as int, s.to.1 as int);
    lemma_count_pair(g, fi, ti, 64);
}

/// Two distinct occupied squares among the first `n` put the prefix count
/// at two or more.
proof fn lemma_count_pair(g: Grid, i1: int, i2: int, n: int)
    requires
        0 <= i1 < n,
        0 <= i2 < n,
        i1 != i2,
        g[i1] is Some,
        g[i2] is Some,
    ensures
        crate::board::count_to(g, n) >= 2,
    decreases n,
{
    if i1 < n - 1 && i2 < n - 1 {
        lemma_count_pair(g, i1, i2, n - 1);
    } else {
        let lo = if i1 < i2 {
            i1
        } else {
            i2
        };
        crate::board::lemma_count_to_occupied(g, lo, n - 1);
    }
}

/// What one legal move does to the aggregate facts the search relies on:
/// the piece count drops by exactly one, the total budget by at least one,
/// well-formedness and king presence are preserved.
pub proof fn lemma_apply_step_stats(g: Grid, s: Step)
    requires
        grid_wf(g),
        legal_capture(g, s),
    ensures
        grid_wf(apply_step(g, s)),
        piece_count(apply_step(g, s)) + 1 == piece_count(g),
        budget_sum(apply_step(g, s)) + 1 <= budget_sum(g),
        has_king(apply_step(g, s)) == has_king(g),
{
    let fr = s.from.0 as int;
    let fc = s.from.1 as int;
    let tr = s.to.0 as int;
    let tc = s.to.1 as int;
    let fi = sq(fr, fc);
    let ti = sq(tr, tc);
    lemma_sq_distinct(fr, fc, tr, tc);
    let p = g[fi]->0;
    let p2 = spend_capture(p);
    let g1 = g.update(ti, Some(p2));
    let g2 = g1.update(fi, None);
    assert(apply_step(g, s) == g2);
    lemma_count_to_update(g, ti, Some(p2), 64);
    lemma_count_to_update(g1, fi, None, 64);
    lemma_budget_to_update(g, ti, Some(p2), 64);
    lemma_budget_to_update(g1, fi, None, 64);
    assert(g1[fi] == g[fi]);
    assert forall|i: int| 0 <= i < 64 && g2[i] is Some implies (#[trigger] g2[i])->0.wf() by {
        if i != ti && i != fi {
            assert(g2[i] == g[i]);
        }
    }
    if has_king(g) {
        let i = choose|i: int|
            0 <= i < 64 && (#[trigger] g[i]) is Some && g[i]->0.piece_type == PieceType::King;
        if i == fi {
            assert(g2[ti] is Some && g2[ti]->0.piece_type == PieceType::King);
        } else if i == ti {
            assert(false);
        } else {
            assert(g2[i] == g[i]);
        }
        assert(has_king(g2));
    }
    if has_king(g2) {
        let i = choose|i: int|
            0 <= i < 64 && (#[trigger] g2[i]) is Some && g2[i]->0.piece_type == PieceType::King;
        if i == ti {
            assert(g[fi] is Some && g[fi]->0.piece_type == PieceType::King);
        } else {
            assert(g2[i] == g[i]);
        }
        assert(has_king(g));
    }
}

/// Replaying a legal move sequence: each move removes one piece and spends
/// at least one unit of budget, and the King, if any, survives throughout.
pub proof fn lemma_replay_stats(g: Grid, trail: Seq<Step>)
    requires
        grid_wf(g),
        trail_ok(g, trail),
    ensures
        grid_wf(replay(g, trail)),
        piece_count(replay(g, trail)) + trail.len() == piece_count(g),
        budget_sum(replay(g, trail)) + trail.len() <= budget_sum(g),
        has_king(replay(g, trail)) == has_king(g),
    decreases trail.len(),
{
    if trail.len() > 0 {
        lemma_apply_step_stats(g, trail[0]);
        lemma_replay_stats(apply_step(g, trail[0]), trail.drop_first());
    }
}

/// The budget prune is sound: when the total remaining budget cannot pay
/// for the captures still needed, no move sequence wins.
pub proof fn lemma_budget_prune(g: Grid, king_required: bool)
    requires
        grid_wf(g),
        budget_sum(g) + 1 < piece_count(g),
    ensures
        !solvable(g, king_required),
{
    if solvable(g, king_required) {
        let trail = choose|trail: Seq<Step>|
            #[trigger] trail_ok(g, trail) && goal(replay(g, trail), king_required);
        lemma_replay_stats(g, trail);
        assert(piece_count(replay(g, trail)) == 1);
    }
}

/// A position with at most one piece is won or lost as it stands: no legal
/// capture exists, so the goal test settles it.
pub proof fn lemma_terminal(g: Grid, king_required: bool)
    requires
        grid_wf(g),
        piece_count(g) <= 1,
    ensures
        solvable(g, king_required) == goal(g, king_required),
{
    if goal(g, king_required) {
        let empty = Seq::<Step>::empty();
        assert(trail_ok(g, empty) && goal(replay(g, empty), king_required));
    }
    if solvable(g, king_required) {
        let trail = choose|trail: Seq<Step>|
            #[trigger] trail_ok(g, trail) && goal(replay(g, trail), king_required);
        if trail.len() > 0 {
            lemma_legal_two_pieces(g, trail[0]);
        }
    }
}

/// Prefixing a winning sequence of the successor position with the move
/// that leads there wins from the current position.
pub proof fn lemma_extend_trail(g: Grid, s: Step, t: Seq<Step>)
    requires
        legal_capture(g, s),
    ensures
        trail_ok(g, seq![s] + t) == trail_ok(apply_step(g, s), t),
        replay(g, seq![s] + t) == replay(apply_step(g, s), t),
{
    let full = seq![s] + t;
    assert(full[0] == s);
    assert(full.drop_first() =~= t);
}

/// Replaying a valid move sequence is valid step by step: the `i`-th move
/// is a legal capture on the position reached by the moves before it.  In
/// particular its origin square is occupied by a piece with capture budget
/// left (budgets never go below zero: a piece out of budget cannot move),
/// its target square is occupied by a different, non-King piece, and the
/// next position is the result of playing it.
pub proof fn lemma_trail_stepwise(g: Grid, trail: Seq<Step>, i: int)
    requires
        trail_ok(g, trail),
        0 <= i < trail.len(),
    ensures
        legal_capture(replay(g, trail.take(i)), trail[i]),
        replay(g, trail.take(i + 1)) == apply_step(replay(g, trail.take(i)), trail[i]),
    decreases i,
{
    if i == 0 {
        assert(trail.take(0) =~= Seq::<Step>::empty());
        assert(replay(g, trail.take(0)) == g);
        assert(trail.take(1).len() == 1);
        assert(trail.take(1)[0] == trail[0]);
        assert(trail.take(1).drop_first() =~= Seq::<Step>::empty());
        assert(replay(g, trail.take(1)) == replay(
            apply_step(g, trail[0]),
            trail.take(1).drop_first(),
        ));
        assert(replay(apply_step(g, trail[0]), Seq::<Step>::empty()) == apply_step(g, trail[0]));
    } else {
        let g1 = apply_step(g, trail[0]);
        let rest = trail.drop_first();
        lemma_trail_stepwise(g1, rest, i - 1);
        assert(rest.take(i - 1) =~= trail.take(i).drop_first());
        assert(rest.take(i) =~= trail.take(i + 1).drop_first());
        assert(rest[i - 1] == trail[i]);
        assert(replay(g, trail.take(i)) == replay(g1, rest.take(i - 1))) by {
            assert(trail.take(i)[0] == trail[0]);
        }
        assert(replay(g, trail.take(i + 1)) == replay(g1, rest.take(i))) by {
            assert(trail.take(i + 1)[0] == trail[0]);
        }
    }
}

/// The row-major square index a step moves from.
pub open spec fn from_ix(s: Step) -> int {
    sq(s.from.0 as int, s.from.1 as int)
}

/// The row-major square index a step moves to.
pub open spec fn to_ix(s: Step) -> int {
    sq(s.to.0 as int, s.to.1 as int)
}

/// A valid move sequence stays valid when cut short.
pub proof fn lemma_trail_ok_prefix(g: Grid, trail: Seq<Step>, n: int)
    requires
        trail_ok(g, trail),
        0 <= n <= trail.len(),
    ensures
        trail_ok(g, trail.take(n)),
    decreases n,
{
    if n > 0 {
        let rest = trail.drop_first();
        lemma_trail_ok_prefix(apply_step(g, trail[0]), rest, n - 1);
        assert(trail.take(n)[0] == trail[0]);
        assert(trail.take(n).drop_first() =~= rest.take(n - 1));
    }
}

/// A square that no move in `trail[i..j)` starts from or lands on holds
/// the same contents throughout those moves.
proof fn lemma_replay_untouched(g: Grid, trail: Seq<Step>, i: int, j: int, x: int)
    requires
        grid_wf(g),
        trail_ok(g, trail),
        0 <= i <= j <= trail.len(),
        0 <= x < 64,
        forall|m: int|
            i <= m < j ==> from_ix(#[trigger] trail[m]) != x && to_ix(trail[m]) != x,
    ensures
        replay(g, trail.take(j))[x] == replay(g, trail.take(i))[x],
    decreases j - i,
{
    if j > i {
        lemma_replay_untouched(g, trail, i, j - 1, x);
        lemma_trail_stepwise(g, trail, j - 1);
        lemma_trail_ok_prefix(g, trail, j - 1);
        lemma_replay_stats(g, trail.take(j - 1));
        let gp = replay(g, trail.take(j - 1));
        let s = trail[j - 1];
        assert(legal_capture(gp, s));
        lemma_sq_distinct(s.from.0 as int, s.from.1 as int, s.to.0 as int, s.to.1 as int);
        assert(apply_step(gp, s)[x] == gp[x]);
    }
}

/// No move of `trail` strictly between positions `i` and `j` starts from
/// or lands on the square move `j` starts from.
pub open spec fn link_clear(trail: Seq<Step>, i: int, j: int) -> bool {
    forall|m: int|
        i < m < j ==> (#[trigger] trail[m]).from != trail[j].from && trail[m].to
            != trail[j].from
}

/// `idx` names moves of `trail` that one and the same piece performs, in
/// order: each link starts where the previous one landed, and no move in
/// between starts from or lands on that square.
pub open spec fn same_piece_chain(trail: Seq<Step>, idx: Seq<int>) -> bool {
    &&& forall|n: int| 0 <= n < idx.len() ==> 0 <= #[trigger] idx[n] < trail.len()
    &&& forall|n: int| 0 <= n < idx.len() - 1 ==> #[trigger] idx[n] < idx[n + 1]
    &&& forall|n: int|
        0 <= n < idx.len() - 1 ==> trail[#[trigger] idx[n]].to == trail[idx[n + 1]].from
    &&& forall|n: int| 0 <= n < idx.len() - 1 ==> link_clear(trail, #[trigger] idx[n], idx[n + 1])
}

/// Following one chain link costs the moving piece exactly one unit of
/// capture budget: when move `j` starts where move `i` landed and nothing
/// in between touched that square, the piece moving at `j` is the piece
/// that moved at `i`, one capture poorer.
proof fn lemma_chain_budget_step(g: Grid, trail: Seq<Step>, i: int, j: int)
    requires
        grid_wf(g),
        trail_ok(g, trail),
        0 <= i < j < trail.len(),
        trail[i].to == trail[j].from,
        forall|m: int|
            i < m < j ==> (#[trigger] trail[m]).from != trail[j].from && trail[m].to
                != trail[j].from,
    ensures
        replay(g, trail.take(j))[from_ix(trail[j])] is Some,
        replay(g, trail.take(j))[from_ix(trail[j])]->0.piece_type == replay(
            g,
            trail.take(i),
        )[from_ix(trail[i])]->0.piece_type,
        replay(g, trail.take(j))[from_ix(trail[j])]->0.budget() + 1 == replay(
            g,
            trail.take(i),
        )[from_ix(trail[i])]->0.budget(),
{
    lemma_trail_stepwise(g, trail, i);
    lemma_trail_ok_prefix(g, trail, i);
    lemma_replay_stats(g, trail.take(i));
    let gi = replay(g, trail.take(i));
    let s = trail[i];
    assert(legal_capture(gi, s));
    lemma_sq_distinct(s.from.0 as int, s.from.1 as int, s.to.0 as int, s.to.1 as int);
    assert(apply_step(gi, s)[to_ix(s)] == Some(spend_capture(gi[from_ix(s)]->0)));
    assert forall|m: int|
        i + 1 <= m < j implies from_ix(#[trigger] trail[m]) != to_ix(s) && to_ix(trail[m])
        != to_ix(s) by {
        lemma_trail_stepwise(g, trail, m);
        let sm = trail[m];
        assert(legal_capture(replay(g, trail.take(m)), sm));
        if from_ix(sm) == to_ix(s) {
            lemma_sq_same(sm.from.0 as int, sm.from.1 as int, s.to.0 as int, s.to.1 as int);
        }
        if to_ix(sm) == to_ix(s) {
            lemma_sq_same(sm.to.0 as int, sm.to.1 as int, s.to.0 as int, s.to.1 as int);
        }
    }
    lemma_replay_untouched(g, trail, i + 1, j, to_ix(s));
}

/// Dropping the first link of a chain leaves a chain.
#[verifier::rlimit(60)]
proof fn lemma_chain_drop_first(trail: Seq<Step>, idx: Seq<int>)
    requires
        same_piece_chain(trail, idx),
        idx.len() >= 1,
    ensures
        same_piece_chain(trail, idx.drop_first()),
{
    let rest = idx.drop_first();
    assert forall|n: int| 0 <= n < rest.len() implies 0 <= #[trigger] rest[n] < trail.len() by {
        assert(rest[n] == idx[n + 1]);
    }
    assert forall|n: int| 0 <= n < rest.len() - 1 implies #[trigger] rest[n] < rest[n + 1] by {
        assert(rest[n] == idx[n + 1] && rest[n + 1] == idx[n + 2]);
    }
    assert forall|n: int|
        0 <= n < rest.len() - 1 implies trail[#[trigger] rest[n]].to == trail[rest[n
        + 1]].from by {
        assert(rest[n] == idx[n + 1] && rest[n + 1] == idx[n + 2]);
    }
    assert forall|n: int|
        0 <= n < rest.len() - 1 implies link_clear(trail, #[trigger] rest[n], rest[n + 1]) by {
        assert(rest[n] == idx[n + 1] && rest[n + 1] == idx[n + 2]);
        assert(link_clear(trail, idx[n + 1], idx[n + 2]));
    }
}

/// One piece can move at most as many times as it has capture budget when
/// its first chained move begins.
pub proof fn lemma_chain_within_budget(g: Grid, trail: Seq<Step>, idx: Seq<int>)
    requires
        grid_wf(g),
        trail_ok(g, trail),
        same_piece_chain(trail, idx),
        idx.len() >= 1,
    ensures
        idx.len() <= replay(g, trail.take(idx[0]))[from_ix(trail[idx[0]])]->0.budget(),
    decreases idx.len(),
{
    lemma_trail_stepwise(g, trail, idx[0]);
    if idx.len() == 1 {
        assert(legal_capture(replay(g, trail.take(idx[0])), trail[idx[0]]));
    } else {
        let rest = idx.drop_first();
        lemma_chain_drop_first(trail, idx);
        lemma_chain_within_budget(g, trail, rest);
        assert(rest[0] == idx[1]);
        assert(link_clear(trail, idx[0], idx[1]));
        lemma_chain_budget_step(g, trail, idx[0], idx[1]);
    }
}

/// With all budgets within `DEFAULT_MOVE_LEFT` at the start, no piece is
/// the mover of more than `DEFAULT_MOVE_LEFT` moves of a valid sequence.
pub proof fn lemma_mover_within_default(g: Grid, trail: Seq<Step>, idx: Seq<int>)
    requires
        grid_wf(g),
        trail_ok(g, trail),
        same_piece_chain(trail, idx),
    ensures
        idx.len() <= crate::piece::DEFAULT_MOVE_LEFT,
{
    if idx.len() >= 1 {
        lemma_chain_within_budget(g, trail, idx);
        lemma_trail_ok_prefix(g, trail, idx[0]);
        lemma_replay_stats(g, trail.take(idx[0]));
        let gi = replay(g, trail.take(idx[0]));
        lemma_trail_stepwise(g, trail, idx[0]);
        assert(gi[from_ix(trail[idx[0]])]->0.wf());
    }
}

/// How `a * b` evaluates for the small factors that appear in direction
/// offsets.
proof fn lemma_small_mul(a: int, b: int)
    requires
        -2 <= b <= 2,
    ensures
        b == 0 ==> a * b == 0,
        b == 1 ==> a * b == a,
        b == -1 ==> a * b == -a,
        b == 2 ==> a * b == a + a,
        b == -2 ==> a * b == -(a + a),
{
    assert(b == 0 ==> a * b == 0) by (nonlinear_arith);
    assert(b == 1 ==> a * b == a) by (nonlinear_arith);
    assert(b == -1 ==> a * b == -a) by (nonlinear_arith);
    assert(b == 2 ==> a * b == a + a) by (nonlinear_arith);
    assert(b == -2 ==> a * b == -(a + a)) by (nonlinear_arith);
}

/// The point `j` steps from `(fr, fc)` along `(dr, dc)`.
pub open spec fn line_point(fr: int, fc: int, dr: int, dc: int, j: int) -> (int, int) {
    (fr + j * dr, fc + j * dc)
}

/// `(ir, ic)` lies strictly between `(fr, fc)` and `(tr, tc)` on a common
/// straight line: a rank, a file or a diagonal.
pub open spec fn between_on_line(fr: int, fc: int, tr: int, tc: int, ir: int, ic: int) -> bool {
    exists|dr: int, dc: int, k: int, j: int|
        {
            &&& -1 <= dr <= 1
            &&& -1 <= dc <= 1
            &&& !(dr == 0 && dc == 0)
            &&& 1 <= j < k
            &&& (tr, tc) == #[trigger] line_point(fr, fc, dr, dc, k)
            &&& (ir, ic) == #[trigger] line_point(fr, fc, dr, dc, j)
        }
}

/// A legal capture never lands on a King and never passes over any piece:
/// every square strictly between its origin and its target on their common
/// line is empty.  So a King, or anything else, standing on the line
/// blocks it, and squares beyond the blocker are unreachable.
pub proof fn lemma_capture_avoids_king(g: Grid, s: Step, ir: int, ic: int)
    requires
        legal_capture(g, s),
        between_on_line(s.from.0 as int, s.from.1 as int, s.to.0 as int, s.to.1 as int, ir, ic),
    ensures
        g[sq(s.to.0 as int, s.to.1 as int)]->0.piece_type != PieceType::King,
        g[sq(ir, ic)] is None,
{
    let fr = s.from.0 as int;
    let fc = s.from.1 as int;
    let tr = s.to.0 as int;
    let tc = s.to.1 as int;
    let t = s.piece_type;
    let (dr, dc, k, j): (int, int, int, int) = choose|dr: int, dc: int, k: int, j: int|
        {
            &&& -1 <= dr <= 1
            &&& -1 <= dc <= 1
            &&& !(dr == 0 && dc == 0)
            &&& 1 <= j < k
            &&& (tr, tc) == #[trigger] line_point(fr, fc, dr, dc, k)
            &&& (ir, ic) == #[trigger] line_point(fr, fc, dr, dc, j)
        };
    let (i0, k0): (int, int) = choose|i0: int, k0: int|
        {
            &&& 0 <= i0 < dir_count(t)
            &&& #[trigger] dir_capture(g, t, fr, fc, dir_of(t, i0).0, dir_of(t, i0).1, k0)
            &&& tr == fr + k0 * dir_of(t, i0).0
            &&& tc == fc + k0 * dir_of(t, i0).1
        };
    let d0r = dir_of(t, i0).0;
    let d0c = dir_of(t, i0).1;
    lemma_small_mul(k, dr);
    lemma_small_mul(k, dc);
    lemma_small_mul(j, dr);
    lemma_small_mul(j, dc);
    lemma_small_mul(k0, d0r);
    lemma_small_mul(k0, d0c);
    if !slides(t) {
        assert(k0 == 1);
        assert(false);
    } else {
        assert(-1 <= d0r <= 1 && -1 <= d0c <= 1);
        assert(k0 * d0r == k * dr && k0 * d0c == k * dc);
        assert(d0r == dr && d0c == dc && k0 == k) by {
            if dr == 0 {
                assert(k0 * d0r == 0);
                assert(d0r == 0);
                assert(dc != 0);
                if dc == 1 {
                    assert(k0 * d0c == k);
                    assert(d0c == 1 && k0 == k);
                } else {
                    assert(k0 * d0c == -k);
                    assert(d0c == -1 && k0 == k);
                }
            } else if dr == 1 {
                assert(k0 * d0r == k);
                assert(d0r == 1 && k0 == k);
                if dc == 0 {
                    assert(d0c == 0);
                } else if dc == 1 {
                    assert(d0c == 1);
                } else {
                    assert(d0c == -1);
                }
            } else {
                assert(k0 * d0r == -k);
                assert(d0r == -1 && k0 == k);
                if dc == 0 {
                    assert(d0c == 0);
                } else if dc == 1 {
                    assert(d0c == 1);
                } else {
                    assert(d0c == -1);
                }
            }
        }
        assert(ray_cell(g, fr, fc, d0r, d0c, j) is None) by {
            lemma_small_mul(j, d0r);
            lemma_small_mul(j, d0c);
        }
        assert(g[sq(ir, ic)] is None);
    }
}

/// When a position is not yet won and every legal move leads to a lost
/// position, the position is lost.
pub proof fn lemma_children_decide(g: Grid, king_required: bool)
    requires
        grid_wf(g),
        piece_count(g) >= 2,
        forall|s: Step| #[trigger]
            legal_capture(g, s) ==> !solvable(apply_step(g, s), king_required),
    ensures
        !solvable(g, king_required),
{
    if solvable(g, king_required) {
        let trail = choose|trail: Seq<Step>|
            #[trigger] trail_ok(g, trail) && goal(replay(g, trail), king_required);
        if trail.len() == 0 {
            assert(piece_count(replay(g, trail)) == piece_count(g));
        } else {
            let s = trail[0];
            let rest = trail.drop_first();
            assert(legal_capture(g, s));
            assert(trail_ok(apply_step(g, s), rest) && goal(
                replay(apply_step(g, s), rest),
                king_required,
            ));
            assert(solvable(apply_step(g, s), king_required));
        }
    }
}

} // verus!
