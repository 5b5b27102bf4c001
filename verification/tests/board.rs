use solo_chess::board::Board;
use solo_chess::piece::{Piece, PieceType};

#[test]
fn count_pieces() {
    let mut board = Board::new();
    assert_eq!(0, board.count_pieces());

    board.set_cell(0, 4, Piece::new(PieceType::Bishop));
    board.set_cell(5, 7, Piece::new(PieceType::Queen));
    assert_eq!(2, board.count_pieces());
}

#[test]
fn move_piece() {
    let mut board = Board::new();
    board.set_cell(0, 4, Piece::new(PieceType::Bishop));
    board.move_piece(0, 4, 2, 6);

    assert!(board.get_cell(0, 4).is_none());
    assert!(board.get_cell(2, 6).is_some());
    assert_eq!(1, board.get_cell(2, 6).unwrap().move_left());
    assert_eq!(PieceType::Bishop, board.get_cell(2, 6).unwrap().piece_type);
}

#[test]
fn get_pieces_and_count() {
    let mut board = Board::new();
    board.set_cell(0, 4, Piece::new(PieceType::Bishop));
    board.set_cell(3, 5, Piece::new(PieceType::Bishop));
    board.set_cell(4, 7, Piece::new(PieceType::Pawn));

    assert_eq!(3, board.count_pieces());
    let pieces: Vec<(usize, usize, Piece)> = board.pieces();
    assert_eq!(
        vec![
            (0, 4, Piece::new(PieceType::Bishop)),
            (3, 5, Piece::new(PieceType::Bishop)),
            (4, 7, Piece::new(PieceType::Pawn))
        ],
        pieces
    );
}

#[test]
fn aggregate_queries() {
    let mut board = Board::new();
    assert!(!board.has_king());
    assert!(!board.single_is_king());
    assert_eq!(0, board.sum_move_left());

    board.set_cell(2, 2, Piece::new(PieceType::King));
    assert!(board.has_king());
    assert!(board.single_is_king());
    assert_eq!(2, board.sum_move_left());

    board.set_cell(6, 1, Piece::new(PieceType::Rook));
    assert!(board.has_king());
    assert!(!board.single_is_king());
    assert_eq!(4, board.sum_move_left());
}

#[test]
fn move_budget_saturates() {
    let mut board = Board::new();
    board.set_cell(4, 4, Piece::new(PieceType::Queen));
    board.move_piece(4, 4, 0, 0);
    board.move_piece(0, 0, 4, 4);
    board.move_piece(4, 4, 0, 0);
    let p = board.get_cell(0, 0).unwrap();
    assert_eq!(0, p.move_left());

    board.move_piece(0, 0, 0, 0);
    assert_eq!(0, board.get_cell(0, 0).unwrap().move_left());
    assert_eq!(1, board.count_pieces());
}
