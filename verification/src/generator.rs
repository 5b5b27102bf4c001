//! The move generator: for each piece with capture budget left, every
//! legal capture target, produced by walking the piece's direction table.
//! `list_capture_pairs_into` is proved to emit exactly the legal captures
//! of the position, in row-major origin order.

use vstd::prelude::*;
use vstd::seq_lib::*;

use crate::board::{on_board, sq, Board, Grid};
use crate::piece::PieceType;
use crate::rules::{
    dir_capture, dir_count, dir_of, knight_dir, legal_capture, path_clear, ray_cell, reaches,
    slider_dir, slides,
};
use crate::step::Step;

verus! {

/// The step that captures on `(tr, tc)` from `(fr, fc)`.
pub open spec fn step_to(fr: int, fc: int, tr: int, tc: int, t: PieceType) -> Step {
    Step {
        from: (fr as usize, fc as usize),
        to: (tr as usize, tc as usize),
        piece_type: t,
    }
}

/// An optional step as a sequence: empty, or that one step.
pub open spec fn opt_steps(o: Option<Step>) -> Seq<Step> {
    match o {
        None => Seq::empty(),
        Some(s) => seq![s],
    }
}

/// The capture, if any, that a piece of kind `t` on `(fr, fc)` has along
/// its `i`-th direction: the first occupied square along the ray decides,
/// and it is unique.
pub open spec fn dir_step(g: Grid, t: PieceType, fr: int, fc: int, i: int) -> Option<Step> {
    let dr = dir_of(t, i).0;
    let dc = dir_of(t, i).1;
    if exists|k: int| #[trigger] dir_capture(g, t, fr, fc, dr, dc, k) {
        let k = choose|k: int| #[trigger] dir_capture(g, t, fr, fc, dr, dc, k);
        Some(step_to(fr, fc, fr + k * dr, fc + k * dc, t))
    } else {
        None
    }
}

/// The captures of the piece on `(r, c)` along its first `n` directions,
/// in direction-table order.
pub open spec fn origin_steps_to(g: Grid, r: int, c: int, n: int) -> Seq<Step>
    decreases n,
{
    if n <= 0 {
        Seq::empty()
    } else {
        origin_steps_to(g, r, c, n - 1) + opt_steps(
            dir_step(g, g[sq(r, c)]->0.piece_type, r, c, n - 1),
        )
    }
}

/// Every capture of the piece on `(r, c)`, in direction-table order; an
/// empty square, or a piece out of capture budget, contributes nothing.
pub open spec fn origin_moves(g: Grid, r: int, c: int) -> Seq<Step> {
    if g[sq(r, c)] is Some && g[sq(r, c)]->0.budget() > 0 {
        origin_steps_to(g, r, c, dir_count(g[sq(r, c)]->0.piece_type))
    } else {
        Seq::empty()
    }
}

/// The capture moves of the origins among the first `n` squares, in
/// row-major origin order.
pub open spec fn gen_seq_to(g: Grid, n: int) -> Seq<Step>
    decreases n,
{
    if n <= 0 {
        Seq::empty()
    } else {
        gen_seq_to(g, n - 1) + origin_moves(g, (n - 1) / 8, (n - 1) % 8)
    }
}

/// The full legal-move list of the position: for each occupied square in
/// row-major order, its piece's captures in direction-table order, one per
/// direction at most.
pub open spec fn gen_seq(g: Grid) -> Seq<Step> {
    gen_seq_to(g, 64)
}

/// A walk that fell off the board at step `j`, with only empty squares
/// behind it, found no capture along this direction.
proof fn lemma_dir_misses_offboard(g: Grid, t: PieceType, fr: int, fc: int, di: int, j: int)
    requires
        0 <= fr < 8,
        0 <= fc < 8,
        0 <= di < dir_count(t),
        -2 <= dir_of(t, di).0 <= 2,
        -2 <= dir_of(t, di).1 <= 2,
        1 <= j,
        forall|j2: int|
            1 <= j2 < j ==> ray_cell(g, fr, fc, dir_of(t, di).0, dir_of(t, di).1, j2) is None,
        !on_board(fr + j * dir_of(t, di).0, fc + j * dir_of(t, di).1),
    ensures
        forall|k: int| !dir_capture(g, t, fr, fc, dir_of(t, di).0, dir_of(t, di).1, k),
        dir_step(g, t, fr, fc, di) is None,
{
    let d0 = dir_of(t, di).0;
    let d1 = dir_of(t, di).1;
    assert forall|k: int| !dir_capture(g, t, fr, fc, d0, d1, k) by {
        if 1 <= k < j {
            assert(ray_cell(g, fr, fc, d0, d1, k) is None);
        } else if k >= j {
            lemma_ray_leaves_board(fr, fc, d0, d1, j, k);
            assert(!on_board(fr + k * d0, fc + k * d1));
        }
    }
}

/// A walk whose first occupied square, at step `j`, holds a King found no
/// capture along this direction: the King is no target and blocks the
/// squares beyond it.
proof fn lemma_dir_misses_blocked(g: Grid, t: PieceType, fr: int, fc: int, di: int, j: int)
    requires
        0 <= di < dir_count(t),
        1 <= j,
        forall|j2: int|
            1 <= j2 < j ==> ray_cell(g, fr, fc, dir_of(t, di).0, dir_of(t, di).1, j2) is None,
        ray_cell(g, fr, fc, dir_of(t, di).0, dir_of(t, di).1, j) is Some,
        ray_cell(g, fr, fc, dir_of(t, di).0, dir_of(t, di).1, j)->0.piece_type
            == PieceType::King,
    ensures
        forall|k: int| !dir_capture(g, t, fr, fc, dir_of(t, di).0, dir_of(t, di).1, k),
        dir_step(g, t, fr, fc, di) is None,
{
    let d0 = dir_of(t, di).0;
    let d1 = dir_of(t, di).1;
    assert forall|k: int| !dir_capture(g, t, fr, fc, d0, d1, k) by {
        if 1 <= k < j {
            assert(ray_cell(g, fr, fc, d0, d1, k) is None);
        } else if k > j {
            assert(!path_clear(g, fr, fc, d0, d1, k));
        }
    }
}

/// A piece that cannot slide and sees an empty square one step out has no
/// capture along this direction.
proof fn lemma_dir_misses_short(g: Grid, t: PieceType, fr: int, fc: int, di: int)
    requires
        0 <= di < dir_count(t),
        !slides(t),
        ray_cell(g, fr, fc, dir_of(t, di).0, dir_of(t, di).1, 1) is None,
    ensures
        forall|k: int| !dir_capture(g, t, fr, fc, dir_of(t, di).0, dir_of(t, di).1, k),
        dir_step(g, t, fr, fc, di) is None,
{
    let d0 = dir_of(t, di).0;
    let d1 = dir_of(t, di).1;
    assert forall|k: int| !dir_capture(g, t, fr, fc, d0, d1, k) by {
        if k == 1 {
            assert(ray_cell(g, fr, fc, d0, d1, 1) is None);
        }
    }
}

/// A walk whose first occupied square, at step `j`, holds a non-King piece
/// found the direction's one capture: the emitted move is legal, and
/// `dir_step` is exactly it.
proof fn lemma_dir_hits(g: Grid, t: PieceType, fr: int, fc: int, di: int, j: int)
    requires
        0 <= fr < 8,
        0 <= fc < 8,
        g[sq(fr, fc)] is Some,
        g[sq(fr, fc)]->0.piece_type == t,
        g[sq(fr, fc)]->0.budget() > 0,
        0 <= di < dir_count(t),
        !(dir_of(t, di).0 == 0 && dir_of(t, di).1 == 0),
        1 <= j,
        j == 1 || slides(t),
        forall|j2: int|
            1 <= j2 < j ==> ray_cell(g, fr, fc, dir_of(t, di).0, dir_of(t, di).1, j2) is None,
        on_board(fr + j * dir_of(t, di).0, fc + j * dir_of(t, di).1),
        ray_cell(g, fr, fc, dir_of(t, di).0, dir_of(t, di).1, j) is Some,
        ray_cell(g, fr, fc, dir_of(t, di).0, dir_of(t, di).1, j)->0.piece_type
            != PieceType::King,
    ensures
        dir_capture(g, t, fr, fc, dir_of(t, di).0, dir_of(t, di).1, j),
        legal_capture(
            g,
            step_to(fr, fc, fr + j * dir_of(t, di).0, fc + j * dir_of(t, di).1, t),
        ),
        dir_step(g, t, fr, fc, di) == Some(
            step_to(fr, fc, fr + j * dir_of(t, di).0, fc + j * dir_of(t, di).1, t),
        ),
{
    let d0 = dir_of(t, di).0;
    let d1 = dir_of(t, di).1;
    let tr = fr + j * d0;
    let tc = fc + j * d1;
    let s = step_to(fr, fc, tr, tc, t);
    assert(dir_capture(g, t, fr, fc, d0, d1, j));
    assert(reaches(g, t, fr, fc, tr, tc)) by {
        assert(dir_capture(g, t, fr, fc, dir_of(t, di).0, dir_of(t, di).1, j));
    }
    assert((fr, fc) != (tr, tc)) by {
        if d0 != 0 {
            assert(j * d0 != 0) by (nonlinear_arith)
                requires
                    j >= 1,
                    d0 != 0,
            ;
        } else {
            assert(j * d1 != 0) by (nonlinear_arith)
                requires
                    j >= 1,
                    d1 != 0,
            ;
            assert(j * d0 == 0) by (nonlinear_arith)
                requires
                    d0 == 0,
            ;
        }
    }
    assert(legal_capture(g, s));
    let k0 = choose|k0: int| #[trigger] dir_capture(g, t, fr, fc, d0, d1, k0);
    crate::rules::lemma_dir_capture_unique(g, t, fr, fc, d0, d1, k0, j);
}

/// The `i`-th movement direction of piece kind `t`, as executable offsets.
fn dir_at(t: PieceType, i: usize) -> (d: (i32, i32))
    requires
        i < dir_count(t),
    ensures
        d.0 as int == dir_of(t, i as int).0,
        d.1 as int == dir_of(t, i as int).1,
        -2 <= d.0 <= 2,
        -2 <= d.1 <= 2,
        !(d.0 == 0 && d.1 == 0),
{
    match t {
        PieceType::Knight => match i {
            0 => (2, 1),
            1 => (-2, 1),
            2 => (2, -1),
            3 => (-2, -1),
            4 => (1, 2),
            5 => (-1, 2),
            6 => (1, -2),
            _ => (-1, -2),
        },
        PieceType::Rook => match i {
            0 => (0, 1),
            1 => (0, -1),
            2 => (1, 0),
            _ => (-1, 0),
        },
        _ => match i {
            0 => (-1, 1),
            1 => (-1, -1),
            2 => (1, -1),
            3 => (1, 1),
            4 => (0, 1),
            5 => (0, -1),
            6 => (1, 0),
            _ => (-1, 0),
        },
    }
}

/// Walk one direction from `(r, c)` and append the capture it offers, if
/// any: the first occupied square stops the walk, yields a move unless it
/// holds a King, and non-sliding pieces stop after a single step.
fn scan_direction(
    board: &Board,
    r: usize,
    c: usize,
    piece_type: PieceType,
    dr: i32,
    dc: i32,
    Ghost(di): Ghost<int>,
    out: &mut Vec<Step>,
)
    requires
        board.wf(),
        r < 8,
        c < 8,
        board@[sq(r as int, c as int)] is Some,
        board@[sq(r as int, c as int)]->0.piece_type == piece_type,
        board@[sq(r as int, c as int)]->0.budget() > 0,
        0 <= di < dir_count(piece_type),
        dir_of(piece_type, di) == (dr as int, dc as int),
        -2 <= dr <= 2,
        -2 <= dc <= 2,
        !(dr == 0 && dc == 0),
    ensures
        old(out)@.is_prefix_of(final(out)@),
        final(out)@ == old(out)@ + opt_steps(
            dir_step(board@, piece_type, r as int, c as int, di),
        ),
        forall|m: int|
            old(out)@.len() <= m < final(out)@.len() ==> legal_capture(
                board@,
                #[trigger] final(out)@[m],
            ) && final(out)@[m].from == (r, c),
        forall|k: int|
            dir_capture(board@, piece_type, r as int, c as int, dr as int, dc as int, k)
                ==> exists|m: int|
                old(out)@.len() <= m < final(out)@.len() && final(out)@[m] == step_to(
                    r as int,
                    c as int,
                    r as int + k * dr,
                    c as int + k * dc,
                    piece_type,
                ),
{
    let ghost g: Grid = board@;
    let ghost fr: int = r as int;
    let ghost fc: int = c as int;
    let ghost d0: int = dr as int;
    let ghost d1: int = dc as int;
    let mut cr: i32 = r as i32;
    let mut cc: i32 = c as i32;
    let ghost mut j: int = 0;
    let slider = matches!(piece_type, PieceType::Queen | PieceType::Bishop | PieceType::Rook);
    loop
        invariant
            board.wf(),
            board@ == g,
            r < 8,
            c < 8,
            g[sq(fr, fc)] is Some,
            g[sq(fr, fc)]->0.piece_type == piece_type,
            g[sq(fr, fc)]->0.budget() > 0,
            0 <= di < dir_count(piece_type),
            dir_of(piece_type, di) == (d0, d1),
            fr == r as int,
            fc == c as int,
            d0 == dr as int,
            d1 == dc as int,
            -2 <= dr <= 2,
            -2 <= dc <= 2,
            !(d0 == 0 && d1 == 0),
            slider == slides(piece_type),
            0 <= j <= 8,
            !slider ==> j == 0,
            cr as int == fr + j * d0,
            cc as int == fc + j * d1,
            on_board(cr as int, cc as int),
            forall|j2: int| 1 <= j2 <= j ==> ray_cell(g, fr, fc, d0, d1, j2) is None,
            out@ == old(out)@,
        ensures
            old(out)@.is_prefix_of(out@),
            out@ == old(out)@ + opt_steps(dir_step(g, piece_type, fr, fc, di)),
            forall|m: int|
                old(out)@.len() <= m < out@.len() ==> legal_capture(g, #[trigger] out@[m])
                    && out@[m].from == (r, c),
            forall|k: int|
                dir_capture(g, piece_type, fr, fc, d0, d1, k) ==> exists|m: int|
                    old(out)@.len() <= m < out@.len() && out@[m] == step_to(
                        fr,
                        fc,
                        fr + k * d0,
                        fc + k * d1,
                        piece_type,
                    ),
        decreases 8 - j,
    {
        cr = cr + dr;
        cc = cc + dc;
        proof {
            j = j + 1;
        }
        if cr < 0 || cr >= 8 || cc < 0 || cc >= 8 {
            proof {
                lemma_dir_misses_offboard(g, piece_type, fr, fc, di, j);
                assert(out@ =~= old(out)@ + opt_steps(dir_step(g, piece_type, fr, fc, di)));
            }
            return ;
        }
        let ur = cr as usize;
        let uc = cc as usize;
        if let Some(cell) = board.get_cell(ur, uc) {
            if cell.is_king() {
                proof {
                    assert(ray_cell(g, fr, fc, d0, d1, j) is Some);
                    lemma_dir_misses_blocked(g, piece_type, fr, fc, di, j);
                    assert(out@ =~= old(out)@ + opt_steps(dir_step(g, piece_type, fr, fc, di)));
                }
                return ;
            }
            let s = Step { from: (r, c), to: (ur, uc), piece_type };
            out.push(s);
            proof {
                assert(ray_cell(g, fr, fc, d0, d1, j) is Some);
                lemma_dir_hits(g, piece_type, fr, fc, di, j);
                assert(s == step_to(fr, fc, fr + j * d0, fc + j * d1, piece_type));
                assert(legal_capture(g, s));
                assert(out@ =~= old(out)@ + opt_steps(dir_step(g, piece_type, fr, fc, di)));
                assert forall|k: int|
                    dir_capture(g, piece_type, fr, fc, d0, d1, k) implies exists|m: int|
                    old(out)@.len() <= m < out@.len() && out@[m] == step_to(
                        fr,
                        fc,
                        fr + k * d0,
                        fc + k * d1,
                        piece_type,
                    ) by {
                    crate::rules::lemma_dir_capture_unique(g, piece_type, fr, fc, d0, d1, k, j);
                    assert(out@[out@.len() - 1] == s);
                }
            }
            return ;
        }
        proof {
            assert(ray_cell(g, fr, fc, d0, d1, j) is None);
        }
        if !slider {
            proof {
                lemma_dir_misses_short(g, piece_type, fr, fc, di);
                assert(out@ =~= old(out)@ + opt_steps(dir_step(g, piece_type, fr, fc, di)));
            }
            return ;
        }
    }
}

/// Once the ray leaves the board it never returns: every further square
/// along it is off the board too.
proof fn lemma_ray_leaves_board(fr: int, fc: int, d0: int, d1: int, j: int, k: int)
    requires
        0 <= fr < 8,
        0 <= fc < 8,
        -2 <= d0 <= 2,
        -2 <= d1 <= 2,
        j >= 1,
        k >= j,
        !on_board(fr + j * d0, fc + j * d1),
    ensures
        !on_board(fr + k * d0, fc + k * d1),
{
    if fr + j * d0 < 0 {
        assert(d0 < 0) by (nonlinear_arith)
            requires
                fr >= 0,
                j >= 1,
                fr + j * d0 < 0,
        ;
        assert(k * d0 <= j * d0) by (nonlinear_arith)
            requires
                k >= j,
                d0 < 0,
        ;
    } else if fr + j * d0 >= 8 {
        assert(d0 > 0) by (nonlinear_arith)
            requires
                fr < 8,
                j >= 1,
                fr + j * d0 >= 8,
        ;
        assert(k * d0 >= j * d0) by (nonlinear_arith)
            requires
                k >= j,
                d0 > 0,
        ;
    } else if fc + j * d1 < 0 {
        assert(d1 < 0) by (nonlinear_arith)
            requires
                fc >= 0,
                j >= 1,
                fc + j * d1 < 0,
        ;
        assert(k * d1 <= j * d1) by (nonlinear_arith)
            requires
                k >= j,
                d1 < 0,
        ;
    } else {
        assert(d1 > 0) by (nonlinear_arith)
            requires
                fc < 8,
                j >= 1,
                fc + j * d1 >= 8,
        ;
        assert(k * d1 >= j * d1) by (nonlinear_arith)
            requires
                k >= j,
                d1 > 0,
        ;
    }
}

/// Append every legal capture of the piece standing on `(r, c)`.
pub fn get_capturable_cells_into(
    board: &Board,
    r: usize,
    c: usize,
    piece_type: PieceType,
    out: &mut Vec<Step>,
)
    requires
        board.wf(),
        r < 8,
        c < 8,
        board@[sq(r as int, c as int)] is Some,
        board@[sq(r as int, c as int)]->0.piece_type == piece_type,
        board@[sq(r as int, c as int)]->0.budget() > 0,
    ensures
        old(out)@.is_prefix_of(final(out)@),
        final(out)@ == old(out)@ + origin_moves(board@, r as int, c as int),
        forall|m: int|
            old(out)@.len() <= m < final(out)@.len() ==> legal_capture(
                board@,
                #[trigger] final(out)@[m],
            ) && final(out)@[m].from == (r, c),
        forall|s: Step|
            #[trigger] legal_capture(board@, s) && s.from == (r, c) ==> exists|m: int|
                old(out)@.len() <= m < final(out)@.len() && final(out)@[m] == s,
{
    let ghost g: Grid = board@;
    let ghost fr: int = r as int;
    let ghost fc: int = c as int;
    let n_dirs: usize = match piece_type {
        PieceType::King => 8,
        PieceType::Queen => 8,
        PieceType::Bishop => 4,
        PieceType::Rook => 4,
        PieceType::Knight => 8,
        PieceType::Pawn => 2,
    };
    let mut i: usize = 0;
    while i < n_dirs
        invariant
            board.wf(),
            board@ == g,
            r < 8,
            c < 8,
            g[sq(fr, fc)] is Some,
            g[sq(fr, fc)]->0.piece_type == piece_type,
            g[sq(fr, fc)]->0.budget() > 0,
            fr == r as int,
            fc == c as int,
            n_dirs == dir_count(piece_type),
            i <= n_dirs,
            old(out)@.is_prefix_of(out@),
            out@ == old(out)@ + origin_steps_to(g, fr, fc, i as int),
            forall|m: int|
                old(out)@.len() <= m < out@.len() ==> legal_capture(g, #[trigger] out@[m])
                    && out@[m].from == (r, c),
            forall|i2: int, k: int|
                0 <= i2 < i && #[trigger] dir_capture(
                    g,
                    piece_type,
                    fr,
                    fc,
                    dir_of(piece_type, i2).0,
                    dir_of(piece_type, i2).1,
                    k,
                ) ==> exists|m: int|
                    old(out)@.len() <= m < out@.len() && out@[m] == step_to(
                        fr,
                        fc,
                        fr + k * dir_of(piece_type, i2).0,
                        fc + k * dir_of(piece_type, i2).1,
                        piece_type,
                    ),
        decreases n_dirs - i,
    {
        let (dr, dc) = dir_at(piece_type, i);
        let ghost prev: Seq<Step> = out@;
        scan_direction(board, r, c, piece_type, dr, dc, Ghost(i as int), out);
        proof {
            assert(out@ =~= old(out)@ + origin_steps_to(g, fr, fc, i + 1)) by {
                assert(origin_steps_to(g, fr, fc, i + 1) == origin_steps_to(g, fr, fc, i as int)
                    + opt_steps(dir_step(g, piece_type, fr, fc, i as int)));
            }
            assert forall|m: int| 0 <= m < prev.len() implies out@[m] == prev[m] by {
                assert(prev[m] == out@.subrange(0, prev.len() as int)[m]);
            }
            assert(old(out)@.is_prefix_of(out@)) by {
                assert(old(out)@ =~= out@.subrange(0, old(out)@.len() as int));
            }
            assert forall|m: int|
                old(out)@.len() <= m < out@.len() implies legal_capture(g, #[trigger] out@[m])
                && out@[m].from == (r, c) by {
                if m < prev.len() {
                    assert(out@[m] == prev[m]);
                }
            }
            assert forall|i2: int, k: int|
                0 <= i2 < i + 1 && #[trigger] dir_capture(
                    g,
                    piece_type,
                    fr,
                    fc,
                    dir_of(piece_type, i2).0,
                    dir_of(piece_type, i2).1,
                    k,
                ) implies exists|m: int|
                old(out)@.len() <= m < out@.len() && out@[m] == step_to(
                    fr,
                    fc,
                    fr + k * dir_of(piece_type, i2).0,
                    fc + k * dir_of(piece_type, i2).1,
                    piece_type,
                ) by {
                if i2 < i {
                    let m = choose|m: int|
                        old(out)@.len() <= m < prev.len() && prev[m] == step_to(
                            fr,
                            fc,
                            fr + k * dir_of(piece_type, i2).0,
                            fc + k * dir_of(piece_type, i2).1,
                            piece_type,
                        );
                    assert(out@[m] == prev[m]);
                } else {
                    let m = choose|m: int|
                        prev.len() <= m < out@.len() && out@[m] == step_to(
                            fr,
                            fc,
                            fr + k * dir_of(piece_type, i2).0,
                            fc + k * dir_of(piece_type, i2).1,
                            piece_type,
                        );
                    assert(old(out)@.len() <= m < out@.len());
                }
            }
        }
        i = i + 1;
    }
    proof {
        assert(out@ == old(out)@ + origin_moves(g, fr, fc));
        assert forall|s: Step| legal_capture(g, s) && s.from == (r, c) implies exists|m: int|
            old(out)@.len() <= m < out@.len() && out@[m] == s by {
            let tr = s.to.0 as int;
            let tc = s.to.1 as int;
            let (i2, k): (int, int) = choose|i2: int, k: int|
                {
                    &&& 0 <= i2 < dir_count(s.piece_type)
                    &&& #[trigger] dir_capture(
                        g,
                        s.piece_type,
                        fr,
                        fc,
                        dir_of(s.piece_type, i2).0,
                        dir_of(s.piece_type, i2).1,
                        k,
                    )
                    &&& tr == fr + k * dir_of(s.piece_type, i2).0
                    &&& tc == fc + k * dir_of(s.piece_type, i2).1
                };
            assert(s.piece_type == piece_type);
            let m = choose|m: int|
                old(out)@.len() <= m < out@.len() && out@[m] == step_to(
                    fr,
                    fc,
                    fr + k * dir_of(piece_type, i2).0,
                    fc + k * dir_of(piece_type, i2).1,
                    piece_type,
                );
            assert(out@[m].to.0 == s.to.0 && out@[m].to.1 == s.to.1);
            assert(out@[m] == s);
        }
    }
}

/// Clear `out` and fill it with every legal capture of the position, in
/// row-major order of origin square.
pub fn list_capture_pairs_into(board: &Board, out: &mut Vec<Step>)
    requires
        board.wf(),
    ensures
        final(out)@ == gen_seq(board@),
        forall|m: int|
            0 <= m < final(out)@.len() ==> legal_capture(board@, #[trigger] final(out)@[m]),
        forall|s: Step| #[trigger] legal_capture(board@, s) ==> final(out)@.contains(s),
{
    let ghost g: Grid = board@;
    out.clear();
    proof {
        assert(out@ =~= gen_seq_to(g, 0));
    }
    let mut idx: usize = 0;
    while idx < 64
        invariant
            board.wf(),
            board@ == g,
            idx <= 64,
            out@ == gen_seq_to(g, idx as int),
            forall|m: int| 0 <= m < out@.len() ==> legal_capture(g, #[trigger] out@[m]),
            forall|s: Step|
                #[trigger] legal_capture(g, s) && sq(s.from.0 as int, s.from.1 as int) < idx
                    ==> out@.contains(s),
        decreases 64 - idx,
    {
        let r = idx / 8;
        let c = idx % 8;
        proof {
            assert(sq(r as int, c as int) == idx);
        }
        if let Some(p) = board.get_cell(r, c) {
            if p.move_left() > 0 {
                let ghost prev: Seq<Step> = out@;
                get_capturable_cells_into(board, r, c, p.piece_type, out);
                proof {
                    assert(out@ =~= gen_seq_to(g, idx + 1)) by {
                        assert((idx as int) / 8 == r as int && (idx as int) % 8 == c as int);
                        assert(gen_seq_to(g, idx + 1) == gen_seq_to(g, idx as int)
                            + origin_moves(g, r as int, c as int));
                    }
                    assert forall|m: int| 0 <= m < prev.len() implies out@[m] == prev[m] by {
                        assert(prev[m] == out@.subrange(0, prev.len() as int)[m]);
                    }
                    assert forall|m: int|
                        0 <= m < out@.len() implies legal_capture(g, #[trigger] out@[m]) by {
                        if m < prev.len() {
                            assert(out@[m] == prev[m]);
                        }
                    }
                    assert forall|s: Step|
                        legal_capture(g, s) && sq(s.from.0 as int, s.from.1 as int) < idx + 1
                        implies out@.contains(s) by {
                        if sq(s.from.0 as int, s.from.1 as int) < idx {
                            let m = choose|m: int| 0 <= m < prev.len() && prev[m] == s;
                            assert(out@[m] == s);
                        } else {
                            assert(s.from.0 == r && s.from.1 == c) by {
                                crate::rules::lemma_sq_same(
                                    s.from.0 as int,
                                    s.from.1 as int,
                                    r as int,
                                    c as int,
                                );
                            }
                            let m = choose|m: int|
                                prev.len() <= m < out@.len() && out@[m] == s;
                        }
                    }
                }
            } else {
                proof {
                    assert(out@ =~= gen_seq_to(g, idx + 1)) by {
                        assert((idx as int) / 8 == r as int && (idx as int) % 8 == c as int);
                        assert(origin_moves(g, r as int, c as int) =~= Seq::<Step>::empty());
                    }
                    assert forall|s: Step|
                        legal_capture(g, s) && sq(s.from.0 as int, s.from.1 as int) < idx + 1
                        implies out@.contains(s) by {
                        if sq(s.from.0 as int, s.from.1 as int) == idx {
                            crate::rules::lemma_sq_same(
                                s.from.0 as int,
                                s.from.1 as int,
                                r as int,
                                c as int,
                            );
                            assert(g[sq(s.from.0 as int, s.from.1 as int)]->0.budget() > 0);
                            assert(false);
                        }
                    }
                }
            }
        } else {
            proof {
                assert(out@ =~= gen_seq_to(g, idx + 1)) by {
                    assert((idx as int) / 8 == r as int && (idx as int) % 8 == c as int);
                    assert(origin_moves(g, r as int, c as int) =~= Seq::<Step>::empty());
                }
                assert forall|s: Step|
                    legal_capture(g, s) && sq(s.from.0 as int, s.from.1 as int) < idx + 1
                    implies out@.contains(s) by {
                    if sq(s.from.0 as int, s.from.1 as int) == idx {
                        crate::rules::lemma_sq_same(
                            s.from.0 as int,
                            s.from.1 as int,
                            r as int,
                            c as int,
                        );
                        assert(g[sq(s.from.0 as int, s.from.1 as int)] is Some);
                        assert(false);
                    }
                }
            }
        }
        idx = idx + 1;
    }
    proof {
        assert forall|s: Step| legal_capture(g, s) implies out@.contains(s) by {
            assert(sq(s.from.0 as int, s.from.1 as int) < 64);
        }
    }
}

} // verus!
