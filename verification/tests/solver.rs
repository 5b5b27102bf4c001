use std::collections::HashMap;

use solo_chess::board::Board;
use solo_chess::generator::list_capture_pairs_into;
use solo_chess::piece::{Piece, PieceType};
use solo_chess::solver::solo_chess_solver;
use solo_chess::step::Step;

fn step(fr: usize, fc: usize, tr: usize, tc: usize, piece_type: PieceType) -> Step {
    Step {
        from: (fr, fc),
        to: (tr, tc),
        piece_type,
    }
}

fn assert_vec_eq_unordered<T>(a: &[T], b: &[T])
where
    T: Eq + std::hash::Hash + std::fmt::Debug,
{
    let mut ca: HashMap<&T, usize> = HashMap::new();
    let mut cb: HashMap<&T, usize> = HashMap::new();
    for x in a {
        *ca.entry(x).or_insert(0) += 1;
    }
    for x in b {
        *cb.entry(x).or_insert(0) += 1;
    }
    assert_eq!(ca, cb);
}

#[test]
fn random_cases_with_a_solution() {
    // Level 7 of the chess.com ladder.
    let mut board = Board::new();
    board.set_cell(3, 0, Piece::new(PieceType::Bishop));
    board.set_cell(1, 1, Piece::new(PieceType::Knight));
    board.set_cell(2, 3, Piece::new(PieceType::Queen));
    board.set_cell(3, 2, Piece::new(PieceType::Knight));
    board.set_cell(5, 5, Piece::new(PieceType::Rook));
    board.set_cell(3, 5, Piece::new(PieceType::Knight));
    board.set_cell(4, 2, Piece::new(PieceType::Knight));
    board.set_cell(5, 5, Piece::new(PieceType::Bishop));
    board.set_cell(6, 1, Piece::new(PieceType::Rook));

    let actual = solo_chess_solver(&mut board);
    let expected = vec![
        step(3, 2, 1, 1, PieceType::Knight),
        step(3, 5, 2, 3, PieceType::Knight),
        step(5, 5, 1, 1, PieceType::Bishop),
        step(6, 1, 1, 1, PieceType::Rook),
        step(2, 3, 1, 1, PieceType::Knight),
        step(4, 2, 3, 0, PieceType::Knight),
        step(3, 0, 1, 1, PieceType::Knight),
    ];
    assert_eq!(expected, actual);
}

#[test]
fn unable_to_capture_piece_if_no_move_left() {
    let mut board = Board::new();

    let queen = Piece::new(PieceType::Queen);
    board.set_cell(4, 4, queen);
    board.set_cell(3, 3, Piece::new(PieceType::Rook));

    board.move_piece(4, 4, 0, 0);
    board.move_piece(0, 0, 4, 4);

    let mut capture_pairs = Vec::new();
    list_capture_pairs_into(&board, &mut capture_pairs);
    assert!(capture_pairs.is_empty());
}

#[test]
fn get_all_capture_pairs_for_knight() {
    let mut board = Board::new();
    let mut capture_pairs = Vec::new();

    // No capturable pieces.
    board.set_cell(4, 4, Piece::new(PieceType::Knight));
    list_capture_pairs_into(&board, &mut capture_pairs);
    assert!(capture_pairs.is_empty());

    // Should not capture pieces that need two Knight moves.
    board.set_cell(0, 6, Piece::new(PieceType::Pawn));
    list_capture_pairs_into(&board, &mut capture_pairs);
    assert!(capture_pairs.is_empty());

    // Pieces can be captured in all direction of the Knight, but one of them is the King.
    board.set_cell(5, 6, Piece::new(PieceType::Pawn));
    board.set_cell(5, 2, Piece::new(PieceType::Pawn));
    board.set_cell(3, 6, Piece::new(PieceType::Pawn));
    board.set_cell(3, 2, Piece::new(PieceType::Pawn));
    board.set_cell(2, 5, Piece::new(PieceType::Pawn));
    board.set_cell(6, 5, Piece::new(PieceType::Pawn));
    board.set_cell(2, 3, Piece::new(PieceType::Pawn));
    board.set_cell(6, 3, Piece::new(PieceType::King));

    list_capture_pairs_into(&board, &mut capture_pairs);

    assert_vec_eq_unordered(
        &vec![
            step(4, 4, 5, 6, PieceType::Knight),
            step(4, 4, 5, 2, PieceType::Knight),
            step(4, 4, 3, 6, PieceType::Knight),
            step(4, 4, 3, 2, PieceType::Knight),
            step(4, 4, 2, 5, PieceType::Knight),
            step(4, 4, 6, 5, PieceType::Knight),
            // These are from the Pawns
            step(4, 4, 2, 3, PieceType::Knight),
            step(6, 5, 5, 6, PieceType::Pawn),
            step(3, 2, 2, 3, PieceType::Pawn),
            step(3, 6, 2, 5, PieceType::Pawn),
            // These are from the Pawns
            step(6, 3, 5, 2, PieceType::King),
        ],
        &capture_pairs,
    );
}

#[test]
fn get_all_capture_paris_for_queen_and_king() {
    let mut board = Board::new();
    let mut capture_pairs = Vec::new();

    // No capturable pieces
    board.set_cell(5, 4, Piece::new(PieceType::Queen));
    list_capture_pairs_into(&board, &mut capture_pairs);
    assert!(capture_pairs.is_empty());

    // The check on that direction should stop if met a King.
    board.set_cell(5, 0, Piece::new(PieceType::Pawn));
    board.set_cell(5, 2, Piece::new(PieceType::King));
    list_capture_pairs_into(&board, &mut capture_pairs);
    assert!(capture_pairs.is_empty());

    // Two pawns are aligned on one of the queen's lines of attack. It should capture only the closest one.
    board.set_cell(5, 0, Piece::new(PieceType::Pawn));
    board.set_cell(5, 2, Piece::new(PieceType::Pawn));
    list_capture_pairs_into(&board, &mut capture_pairs);
    assert_eq!(vec![step(5, 4, 5, 2, PieceType::Queen)], capture_pairs);

    /*
    Add more pawns that are attackable in all queen directions. Also include a king, which should be excluded.
    . . . . . . . .
    . . . . . . . .
    . . . . . . . P
    . . P . . . . .
    . . . . P . . .
    P . P . Q . . P
    . . . . . . . .
    . . K . P . P .
    */
    board.set_cell(3, 2, Piece::new(PieceType::Pawn));
    board.set_cell(4, 4, Piece::new(PieceType::Pawn));
    board.set_cell(2, 7, Piece::new(PieceType::Pawn));
    board.set_cell(5, 7, Piece::new(PieceType::Pawn));
    board.set_cell(7, 6, Piece::new(PieceType::Pawn));
    board.set_cell(7, 4, Piece::new(PieceType::Pawn));
    board.set_cell(7, 2, Piece::new(PieceType::King));

    list_capture_pairs_into(&board, &mut capture_pairs);

    assert_vec_eq_unordered(
        &vec![
            step(5, 4, 3, 2, PieceType::Queen),
            step(5, 4, 4, 4, PieceType::Queen),
            step(5, 4, 2, 7, PieceType::Queen),
            step(5, 4, 5, 7, PieceType::Queen),
            step(5, 4, 7, 6, PieceType::Queen),
            step(5, 4, 7, 4, PieceType::Queen),
            step(5, 4, 5, 2, PieceType::Queen),
        ],
        &capture_pairs,
    );

    // Replace the queen with a king. Only adjacent pieces should be capturable.
    board.set_cell(5, 4, Piece::new(PieceType::King));
    list_capture_pairs_into(&board, &mut capture_pairs);
    assert_vec_eq_unordered(&vec![step(5, 4, 4, 4, PieceType::King)], &capture_pairs);
}

#[test]
fn get_all_capture_pairs_for_pawn() {
    let mut board = Board::new();
    let mut capture_pairs = Vec::new();

    board.set_cell(4, 4, Piece::new(PieceType::Pawn));
    list_capture_pairs_into(&board, &mut capture_pairs);
    assert!(capture_pairs.is_empty());

    board.set_cell(3, 3, Piece::new(PieceType::Pawn));
    list_capture_pairs_into(&board, &mut capture_pairs);
    assert_eq!(vec![step(4, 4, 3, 3, PieceType::Pawn)], capture_pairs);

    board.set_cell(3, 5, Piece::new(PieceType::Pawn));
    list_capture_pairs_into(&board, &mut capture_pairs);
    assert_vec_eq_unordered(
        &vec![
            step(4, 4, 3, 3, PieceType::Pawn),
            step(4, 4, 3, 5, PieceType::Pawn),
        ],
        &capture_pairs,
    );
}
