use solo_chess::cell::Cell;
use solo_chess::piece::{Piece, PieceType};
use solo_chess::step::Step;

#[test]
fn chessboard_coordinates_conversion() {
    let a1 = Cell::new(0, 0);
    let h8 = Cell::new(7, 7);
    let e4 = Cell::new(3, 4);

    assert_eq!("a1", a1.notation());
    assert_eq!("h8", h8.notation());
    assert_eq!("e4", e4.notation());
}

#[test]
fn cell_holds_piece() {
    let mut cell = Cell::new(2, 3);
    assert!(cell.piece().is_none());

    cell.set_cell(Piece::new(PieceType::Knight));
    assert_eq!(PieceType::Knight, cell.piece().unwrap().piece_type);

    cell.clear_cell();
    assert!(cell.piece().is_none());
}

#[test]
fn step_notation() {
    let queen_move = Step {
        from: (2, 3),
        to: (1, 1),
        piece_type: PieceType::Queen,
    };
    assert_eq!("Qd6xb7", queen_move.to_san());

    let pawn_move = Step {
        from: (4, 4),
        to: (3, 3),
        piece_type: PieceType::Pawn,
    };
    assert_eq!("e4xd5", pawn_move.to_san());
}

#[test]
fn piece_letters() {
    assert_eq!("K", Piece::new(PieceType::King).letter());
    assert_eq!("Q", Piece::new(PieceType::Queen).letter());
    assert_eq!("B", Piece::new(PieceType::Bishop).letter());
    assert_eq!("R", Piece::new(PieceType::Rook).letter());
    assert_eq!("N", Piece::new(PieceType::Knight).letter());
    assert_eq!("", Piece::new(PieceType::Pawn).letter());
}
