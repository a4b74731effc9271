use masca::board::{Board, BK, BQ, WK, WQ};
use masca::movegen::{generate_all_moves, MoveList};
use masca::moves::{Move, MoveType};
use masca::types::{Color, Piece, PieceType, Square};

const KIWIPETE: &str = "r3k2r/p1ppqpb1/bn2pnp1/3PN3/1p2P3/2N2Q1p/PPPBBPPP/R3K2R w KQkq -";

fn snapshot(board: &Board) -> (Vec<Option<Piece>>, Vec<u64>, Vec<u64>, Color, u8, Option<usize>, usize, usize) {
    let mailbox = (0..64).map(|s| board.piece_on(s)).collect();
    let kinds = [
        PieceType::Pawn,
        PieceType::Knight,
        PieceType::Bishop,
        PieceType::Rook,
        PieceType::Queen,
        PieceType::King,
    ];
    let pieces = kinds.iter().map(|k| board.piece(*k).0).collect();
    let colors = vec![board.color(Color::White).0, board.color(Color::Black).0];
    (
        mailbox,
        pieces,
        colors,
        board.side_to_move(),
        board.castling_rights(),
        board.en_passant_square().map(|s| s.index()),
        board.halfmove_clock(),
        board.ply(),
    )
}

fn check_partition(board: &Board) {
    let kinds = [
        PieceType::Pawn,
        PieceType::Knight,
        PieceType::Bishop,
        PieceType::Rook,
        PieceType::Queen,
        PieceType::King,
    ];
    let union = kinds.iter().fold(0u64, |acc, k| acc | board.piece(*k).0);
    let white = board.color(Color::White).0;
    let black = board.color(Color::Black).0;
    assert_eq!(union, white | black);
    assert_eq!(white & black, 0);
    let kings = board.piece(PieceType::King).0;
    assert_eq!((kings & white).count_ones(), 1);
    assert_eq!((kings & black).count_ones(), 1);
}

fn round_trip_all(fen: &str) {
    let mut board = Board::new();
    board.from_fen(fen).unwrap();
    let before = snapshot(&board);
    let mut list = MoveList::new();
    generate_all_moves(&board, &mut list);
    assert!(list.count() > 0);
    for m in list.iter() {
        board.make_move(*m);
        if !board.king_in_check(board.side_to_move().opponent()) {
            check_partition(&board);
        }
        board.unmake_move(*m);
        assert_eq!(snapshot(&board), before);
    }
}

#[test]
fn make_unmake_restores_start_position() {
    round_trip_all("rnbqkbnr/pppppppp/8/8/8/8/PPPPPPPP/RNBQKBNR w KQkq - 0 1");
}

#[test]
fn make_unmake_restores_kiwipete() {
    round_trip_all(KIWIPETE);
}

#[test]
fn make_unmake_restores_promotions_and_en_passant() {
    round_trip_all("r3k2r/1P6/8/3pP3/8/8/6p1/R3K2R w KQkq d6 0 1");
    round_trip_all("r3k2r/1P6/8/8/3pP3/8/6p1/R3K2R b KQkq e3 0 1");
}

#[test]
fn partition_holds_in_start_position() {
    let mut board = Board::new();
    board.set_startpos();
    check_partition(&board);
    assert_eq!(board.occupied_squares().0, 0xFFFF_0000_0000_FFFF);
    assert_eq!(board.empty_squares().0, !0xFFFF_0000_0000_FFFFu64);
}

#[test]
fn double_push_sets_en_passant_square() {
    let mut board = Board::new();
    board.set_startpos();
    let m = Move::new_special(12, 28, MoveType::DoublePush);
    board.make_move(m);
    assert_eq!(board.en_passant_square().map(|s| s.index()), Some(20));
    assert_eq!(board.side_to_move(), Color::Black);
    assert_eq!(board.piece_on(28), Some(Piece::WhitePawn));
    assert_eq!(board.piece_on(12), None);
    assert_eq!(board.halfmove_clock(), 0);
    board.unmake_move(m);
    assert_eq!(board.en_passant_square(), None);
}

#[test]
fn knight_move_counts_halfmove_clock() {
    let mut board = Board::new();
    board.set_startpos();
    let m = Move::new_normal(6, 21);
    board.make_move(m);
    assert_eq!(board.halfmove_clock(), 1);
    assert_eq!(board.castling_rights(), WK | WQ | BK | BQ);
}

#[test]
fn king_move_clears_both_rights() {
    let mut board = Board::new();
    board.from_fen("r3k2r/8/8/8/8/8/8/R3K2R w KQkq - 0 1").unwrap();
    board.make_move(Move::new_normal(4, 5));
    assert_eq!(board.castling_rights(), BK | BQ);
}

#[test]
fn rook_capture_clears_right() {
    let mut board = Board::new();
    board.from_fen("r3k2r/8/8/8/8/8/8/R3K2R w KQkq - 0 1").unwrap();
    board.make_move(Move::new_special(7, 63, MoveType::Capture));
    assert_eq!(board.castling_rights(), WQ | BQ);
    assert_eq!(board.piece_on(63), Some(Piece::WhiteRook));
}

#[test]
fn castling_moves_the_rook() {
    let mut board = Board::new();
    board.from_fen("r3k2r/8/8/8/8/8/8/R3K2R w KQkq - 0 1").unwrap();
    let m = Move::new_special(4, 6, MoveType::KingCastle);
    board.make_move(m);
    assert_eq!(board.piece_on(6), Some(Piece::WhiteKing));
    assert_eq!(board.piece_on(5), Some(Piece::WhiteRook));
    assert_eq!(board.piece_on(7), None);
    board.unmake_move(m);
    assert_eq!(board.piece_on(7), Some(Piece::WhiteRook));
    assert_eq!(board.piece_on(4), Some(Piece::WhiteKing));
}

#[test]
fn castling_generated_in_open_position() {
    let mut board = Board::new();
    board.from_fen("r3k2r/8/8/8/8/8/8/R3K2R w KQkq - 0 1").unwrap();
    let mut list = MoveList::new();
    generate_all_moves(&board, &mut list);
    let ks = Move::new_special(4, 6, MoveType::KingCastle);
    let qs = Move::new_special(4, 2, MoveType::QueenCastle);
    assert!(list.iter().contains(&ks));
    assert!(list.iter().contains(&qs));
}

#[test]
fn castling_refused_through_attack() {
    let mut board = Board::new();
    board.from_fen("r3k2r/8/8/8/8/8/5r2/R3K2R w KQkq - 0 1").unwrap();
    let mut list = MoveList::new();
    generate_all_moves(&board, &mut list);
    let ks = Move::new_special(4, 6, MoveType::KingCastle);
    assert!(!list.iter().contains(&ks));
}

#[test]
fn promotion_places_the_new_piece() {
    let mut board = Board::new();
    board.from_fen("4k3/1P6/8/8/8/8/8/4K3 w - - 0 1").unwrap();
    let m = Move::new_special(49, 57, MoveType::PromotionQ);
    board.make_move(m);
    assert_eq!(board.piece_on(57), Some(Piece::WhiteQueen));
    assert_eq!(board.piece(PieceType::Pawn).0, 0);
    board.unmake_move(m);
    assert_eq!(board.piece_on(49), Some(Piece::WhitePawn));
    assert_eq!(board.piece(PieceType::Queen).0, 0);
}

#[test]
fn en_passant_capture_removes_the_pawn_behind() {
    let mut board = Board::new();
    board.from_fen("4k3/8/8/3pP3/8/8/8/4K3 w - d6 0 1").unwrap();
    let m = Move::new_special(36, 43, MoveType::EnPassant);
    board.make_move(m);
    assert_eq!(board.piece_on(35), None);
    assert_eq!(board.piece_on(43), Some(Piece::WhitePawn));
    board.unmake_move(m);
    assert_eq!(board.piece_on(35), Some(Piece::BlackPawn));
}

#[test]
fn square_attacks_and_check() {
    let mut board = Board::new();
    board.from_fen("4k3/8/8/8/8/8/8/4K2r w - - 0 1").unwrap();
    assert!(board.king_in_check(Color::White));
    assert!(!board.king_in_check(Color::Black));
    assert!(board.is_square_attacked(Square::new(5), Color::Black));
    assert!(!board.is_square_attacked(Square::new(12), Color::Black));
}

#[test]
fn fen_reads_fields() {
    let mut board = Board::new();
    board.from_fen("8/8/8/8/4P3/8/8/4K2k b Kq e3 17 40").unwrap();
    assert_eq!(board.side_to_move(), Color::Black);
    assert_eq!(board.castling_rights(), WK | BQ);
    assert_eq!(board.en_passant_square().map(|s| s.index()), Some(20));
    assert_eq!(board.halfmove_clock(), 17);
    assert_eq!(board.piece_on(28), Some(Piece::WhitePawn));
    assert_eq!(board.piece_on(7), Some(Piece::BlackKing));
}

#[test]
fn fen_missing_board() {
    let mut board = Board::new();
    assert_eq!(board.from_fen("   "), Err("FEN missing board part"));
}

#[test]
fn fen_missing_side() {
    let mut board = Board::new();
    assert_eq!(board.from_fen("8/8/8/8/8/8/8/8"), Err("FEN missing side to move"));
}

#[test]
fn fen_bad_rank_length() {
    let mut board = Board::new();
    assert_eq!(board.from_fen("8/8/8/8/8/8/8/7 w - -"), Err("Invalid FEN rank length"));
    assert_eq!(board.from_fen("ppppppppp/8/8/8/8/8/8/8 w - -"), Err("Invalid FEN rank length"));
    assert_eq!(board.from_fen("8/8/8/8/8/8/8/8/8 w - -"), Err("Invalid FEN rank length"));
    assert_eq!(board.from_fen("7x/8/8/8/8/8/8/8 w - -"), Err("Invalid FEN rank length"));
}

#[test]
fn fen_bad_side() {
    let mut board = Board::new();
    assert_eq!(board.from_fen("8/8/8/8/8/8/8/8 x - -"), Err("Invalid side to move"));
}

#[test]
fn fen_bad_castling() {
    let mut board = Board::new();
    assert_eq!(board.from_fen("8/8/8/8/8/8/8/8 w KX -"), Err("Invalid castling"));
}

#[test]
fn fen_bad_en_passant() {
    let mut board = Board::new();
    assert_eq!(board.from_fen("8/8/8/8/8/8/8/8 w - z9"), Err("Invalid en passant square"));
    assert_eq!(board.from_fen("8/8/8/8/8/8/8/8 w - e"), Err("Invalid en passant square"));
}

#[test]
fn fen_error_leaves_empty_board() {
    let mut board = Board::new();
    board.set_startpos();
    assert!(board.from_fen("rnbqkbnr/pppppppp/8/8/8/8/PPPPPPPP/RNBQKBNR q KQkq - 0 1").is_err());
    assert_eq!(board.occupied_squares().0, 0);
    assert_eq!(board.castling_rights(), 0);
}

#[test]
fn fen_defaults_for_missing_fields() {
    let mut board = Board::new();
    board.from_fen("4k3/8/8/8/8/8/8/4K3 w").unwrap();
    assert_eq!(board.castling_rights(), 0);
    assert_eq!(board.en_passant_square(), None);
    assert_eq!(board.halfmove_clock(), 0);
}

#[test]
fn fen_needs_eight_ranks() {
    let mut board = Board::new();
    assert_eq!(board.from_fen("8 w - -"), Err("Invalid FEN rank length"));
    assert_eq!(board.from_fen("8/8/8/8/8/8/8 w - -"), Err("Invalid FEN rank length"));
}

#[test]
fn fen_unicode_whitespace() {
    let mut board = Board::new();
    assert_eq!(board.from_fen("\u{00A0}\u{3000}"), Err("FEN missing board part"));
    assert_eq!(board.from_fen("8/8/8/8/8/8/8/8\u{00A0}"), Err("FEN missing side to move"));
    board
        .from_fen("4k3/8/8/8/8/8/8/4K3\u{2003}b\u{00A0}-\u{3000}-")
        .unwrap();
    assert_eq!(board.side_to_move(), Color::Black);
}

#[test]
fn start_position_generates_twenty_each() {
    let mut board = Board::new();
    board.set_startpos();
    let mut white = MoveList::new();
    masca::movegen::generate_white_moves(&board, &mut white);
    assert_eq!(white.count(), 20);
    // Knight moves come first, origins and targets ascending.
    assert_eq!(white.get(0), Move::new_normal(1, 16));
    assert_eq!(white.get(1), Move::new_normal(1, 18));
    let mut black_board = Board::new();
    black_board
        .from_fen("rnbqkbnr/pppppppp/8/8/8/8/PPPPPPPP/RNBQKBNR b KQkq - 0 1")
        .unwrap();
    let mut black = MoveList::new();
    masca::movegen::generate_black_moves(&black_board, &mut black);
    assert_eq!(black.count(), 20);
}

#[test]
fn boards_share_one_table_build() {
    let tables = std::sync::Arc::new(masca::attack::AttackTables::new());
    let mut a = Board::with_tables(tables.clone());
    let mut b = Board::with_tables(tables.clone());
    a.set_startpos();
    b.from_fen(KIWIPETE).unwrap();
    assert_eq!(masca::perft::perft(&mut a, 2), 400);
    assert_eq!(masca::perft::perft(&mut b, 2), 2_039);
    assert_eq!(std::sync::Arc::strong_count(&tables), 3);
}

#[test]
fn one_king_each_query() {
    let mut board = Board::new();
    board.set_startpos();
    assert!(board.has_one_king_each());
    board.from_fen("8/8/8/8/8/8/8/4K3 w - -").unwrap();
    assert!(!board.has_one_king_each());
    board.from_fen("k7/8/8/8/8/8/8/KK6 w - -").unwrap();
    assert!(!board.has_one_king_each());
    board.from_fen(KIWIPETE).unwrap();
    assert!(board.has_one_king_each());
}

#[test]
fn fen_castling_field_is_strict() {
    let mut board = Board::new();
    assert_eq!(board.from_fen("8/8/8/8/8/8/8/8 w K-q -"), Err("Invalid castling"));
    assert_eq!(board.from_fen("8/8/8/8/8/8/8/8 w KK -"), Err("Invalid castling"));
    assert_eq!(board.from_fen("8/8/8/8/8/8/8/8 w -- -"), Err("Invalid castling"));
    board.from_fen("8/8/8/8/8/8/8/8 w qK -").unwrap();
    assert_eq!(board.castling_rights(), WK | BQ);
    board.from_fen("8/8/8/8/8/8/8/8 w - -").unwrap();
    assert_eq!(board.castling_rights(), 0);
}
