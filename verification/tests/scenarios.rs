use std::collections::HashMap;

use solo_chess::board::Board;
use solo_chess::generator::list_capture_pairs_into;
use solo_chess::piece::{Piece, PieceType};
use solo_chess::solver::solo_chess_solver;
use solo_chess::step::Step;

/// Replay `steps` against `board`, checking that every move leaves an
/// occupied square for a different occupied square and that no single
/// piece moves more than twice.  Returns the board after the replay.
fn replay_checked(mut board: Board, steps: &[Step]) -> Board {
    let mut moves_made: HashMap<(usize, usize), usize> = HashMap::new();
    for s in steps {
        let (fr, fc) = s.from;
        let (tr, tc) = s.to;
        assert_ne!((fr, fc), (tr, tc));
        let mover = board.get_cell(fr, fc).expect("move must start on an occupied square");
        assert_eq!(s.piece_type, mover.piece_type);
        assert!(mover.move_left() > 0);
        let target = board.get_cell(tr, tc).expect("move must capture an occupied square");
        assert_ne!(PieceType::King, target.piece_type);

        let made = moves_made.remove(&(fr, fc)).unwrap_or(0) + 1;
        assert!(made <= 2, "a piece moved more than twice");
        moves_made.remove(&(tr, tc));
        moves_made.insert((tr, tc), made);

        board.move_piece(fr, fc, tr, tc);
    }
    board
}

#[test]
fn lone_queen_is_already_terminal() {
    let mut board = Board::new();
    board.set_cell(4, 4, Piece::new(PieceType::Queen));
    let steps = solo_chess_solver(&mut board);
    assert!(steps.is_empty());
    assert_eq!(1, board.count_pieces());

    let mut empty = Board::new();
    let steps = solo_chess_solver(&mut empty);
    assert!(steps.is_empty());
}

#[test]
fn queen_captures_only_the_nearer_pawn() {
    let mut board = Board::new();
    board.set_cell(5, 3, Piece::new(PieceType::Queen));
    board.set_cell(5, 0, Piece::new(PieceType::Pawn));
    board.set_cell(5, 1, Piece::new(PieceType::Pawn));

    let mut capture_pairs = Vec::new();
    list_capture_pairs_into(&board, &mut capture_pairs);
    assert_eq!(
        vec![Step {
            from: (5, 3),
            to: (5, 1),
            piece_type: PieceType::Queen,
        }],
        capture_pairs
    );
}

#[test]
fn four_piece_puzzle_solves_in_three_moves() {
    let mut board = Board::new();
    board.set_cell(0, 5, Piece::new(PieceType::Rook));
    board.set_cell(2, 4, Piece::new(PieceType::Bishop));
    board.set_cell(3, 2, Piece::new(PieceType::Rook));
    board.set_cell(3, 5, Piece::new(PieceType::Queen));
    let original = board.snapshot();

    let steps = solo_chess_solver(&mut board);
    assert_eq!(3, steps.len());
    for s in &steps {
        assert_ne!(PieceType::King, s.piece_type);
    }
    let end = replay_checked(original, &steps);
    assert_eq!(1, end.count_pieces());
}

#[test]
fn eleven_piece_puzzle_leaves_the_king() {
    let mut board = Board::new();
    board.set_cell(1, 0, Piece::new(PieceType::King));
    board.set_cell(0, 1, Piece::new(PieceType::Rook));
    board.set_cell(0, 3, Piece::new(PieceType::Knight));
    board.set_cell(1, 1, Piece::new(PieceType::Rook));
    board.set_cell(2, 2, Piece::new(PieceType::Knight));
    board.set_cell(2, 3, Piece::new(PieceType::Knight));
    board.set_cell(3, 0, Piece::new(PieceType::Bishop));
    board.set_cell(4, 0, Piece::new(PieceType::Knight));
    board.set_cell(1, 6, Piece::new(PieceType::Queen));
    board.set_cell(7, 1, Piece::new(PieceType::Rook));
    board.set_cell(3, 2, Piece::new(PieceType::Knight));
    let original = board.snapshot();

    let steps = solo_chess_solver(&mut board);
    assert_eq!(10, steps.len());
    let end = replay_checked(original, &steps);
    assert_eq!(1, end.count_pieces());
    assert!(end.single_is_king());
    let last = steps[steps.len() - 1];
    let survivor = end.get_cell(last.to.0, last.to.1).expect("the last move's target survives");
    assert_eq!(PieceType::King, survivor.piece_type);
}

#[test]
fn no_solution_without_enough_budget() {
    // Three rooks that all see each other solve in two captures.
    let mut board = Board::new();
    board.set_cell(0, 0, Piece::new(PieceType::Rook));
    board.set_cell(0, 7, Piece::new(PieceType::Rook));
    board.set_cell(7, 0, Piece::new(PieceType::Rook));
    let steps = solo_chess_solver(&mut board);
    assert_eq!(2, steps.len());

    // A rook with an exhausted budget cannot move, but it can still be
    // captured by the other one.
    let mut stuck = Board::new();
    stuck.set_cell(0, 0, Piece::new(PieceType::Rook));
    stuck.set_cell(0, 7, Piece::new(PieceType::Rook));
    stuck.move_piece(0, 0, 1, 0);
    stuck.move_piece(1, 0, 0, 0);
    let steps = solo_chess_solver(&mut stuck);
    assert_eq!(1, steps.len());

    // Two rooks that do not attack each other have no solution at all.
    let mut apart = Board::new();
    apart.set_cell(0, 0, Piece::new(PieceType::Rook));
    apart.set_cell(7, 7, Piece::new(PieceType::Rook));
    apart.move_piece(0, 0, 1, 0);
    apart.move_piece(1, 0, 0, 0);
    let steps = solo_chess_solver(&mut apart);
    assert!(steps.is_empty());
}

#[test]
fn king_must_survive() {
    // A king and a queen guarding each other: the king must capture the
    // queen, never the other way round.
    let mut board = Board::new();
    board.set_cell(0, 0, Piece::new(PieceType::King));
    board.set_cell(0, 1, Piece::new(PieceType::Queen));
    let original = board.snapshot();
    let steps = solo_chess_solver(&mut board);
    assert_eq!(1, steps.len());
    assert_eq!(PieceType::King, steps[0].piece_type);
    let end = replay_checked(original, &steps);
    assert!(end.single_is_king());
}
