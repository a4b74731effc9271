use masca::moves::{Move, MoveType};
use masca::types::{Color, Piece, PieceType, Square};

#[test]
fn move_packs_squares_and_kind() {
    let m = Move::new_special(12, 28, MoveType::DoublePush);
    assert_eq!(m.from_square(), 12);
    assert_eq!(m.to_square(), 28);
    assert!(m.is_double_push());
    assert!(!m.is_capture());
    assert!(!m.is_quiet());
    let n = Move::new_normal(63, 0);
    assert_eq!(n.from_square(), 63);
    assert_eq!(n.to_square(), 0);
    assert!(n.is_quiet());
    assert!(!n.is_noisy());
}

#[test]
fn move_kind_predicates() {
    let ep = Move::new_special(36, 43, MoveType::EnPassant);
    assert!(ep.is_enpassant() && ep.is_capture() && ep.is_noisy() && !ep.is_promotion());
    let ks = Move::new_special(4, 6, MoveType::KingCastle);
    let qs = Move::new_special(4, 2, MoveType::QueenCastle);
    assert!(ks.is_castling() && qs.is_castling());
    assert!(!ks.is_capture() && !ks.is_quiet());
    let pc = Move::new_special(49, 56, MoveType::PromotionCaptureR);
    assert!(pc.is_promotion() && pc.is_capture());
    assert_eq!(pc.get_promotion_piece(), PieceType::Rook);
    let p = Move::new_special(49, 57, MoveType::PromotionN);
    assert!(p.is_promotion() && !p.is_capture() && p.is_noisy());
    assert_eq!(p.get_promotion_piece(), PieceType::Knight);
    assert_eq!(Move::new_special(49, 57, MoveType::PromotionB).get_promotion_piece(), PieceType::Bishop);
    assert_eq!(Move::new_special(49, 57, MoveType::PromotionQ).get_promotion_piece(), PieceType::Queen);
    assert!(!Move::null_move().is_capture());
    assert_eq!(Move::new_special(1, 2, MoveType::Capture).is_castling(), false);
}

#[test]
fn pieces_and_letters() {
    let p = Piece::new(Color::Black, PieceType::Queen);
    assert_eq!(p, Piece::BlackQueen);
    assert_eq!(p.get_color(), Color::Black);
    assert_eq!(p.get_type(), PieceType::Queen);
    assert_eq!(p.to_char(), 'q');
    assert_eq!(Piece::from_char('N'), Some(Piece::WhiteKnight));
    assert_eq!(Piece::from_char('x'), None);
    assert_eq!(PieceType::new(3), PieceType::Rook);
    assert_eq!(Color::White.opponent(), Color::Black);
}

#[test]
fn square_geometry() {
    let e4 = Square::new(28);
    assert_eq!(e4.rank(), 3);
    assert_eq!(e4.file(), 4);
    assert_eq!(e4.north().index(), 36);
    assert_eq!(e4.south().index(), 20);
    assert_eq!(e4.north_east().index(), 37);
    assert_eq!(e4.north_west().index(), 35);
    assert_eq!(e4.south_east().index(), 21);
    assert_eq!(e4.south_west().index(), 19);
    assert_eq!(e4.bb().0, 1 << 28);
}

#[test]
fn move_type_round_trip() {
    let kinds = [
        MoveType::Normal,
        MoveType::DoublePush,
        MoveType::KingCastle,
        MoveType::QueenCastle,
        MoveType::Capture,
        MoveType::EnPassant,
        MoveType::PromotionN,
        MoveType::PromotionB,
        MoveType::PromotionR,
        MoveType::PromotionQ,
        MoveType::PromotionCaptureN,
        MoveType::PromotionCaptureB,
        MoveType::PromotionCaptureR,
        MoveType::PromotionCaptureQ,
    ];
    for k in kinds {
        assert_eq!(Move::new_special(10, 20, k).get_type(), k);
    }
    assert_eq!(Move::new_normal(10, 20).get_type(), MoveType::Normal);
}

#[test]
fn search_seeds() {
    assert_eq!(masca::magics::seed_for(0), 0xD10FA);
    assert_eq!(masca::magics::seed_for(1), 0xD10FA ^ 0xD10BE571A);
    assert_eq!(masca::magics::seed_for(63), 0xD10FA ^ (63 * 0xD10BE571A));
}
