use masca::board::Board;
use masca::perft::perft;

const KIWIPETE: &str = "r3k2r/p1ppqpb1/bn2pnp1/3PN3/1p2P3/2N2Q1p/PPPBBPPP/R3K2R w KQkq -";

fn start() -> Board {
    let mut board = Board::new();
    board.set_startpos();
    board
}

#[test]
fn startpos_perft_depth_0() {
    let mut board = start();
    assert_eq!(perft(&mut board, 0), 1);
}

#[test]
fn startpos_perft_depth_1() {
    let mut board = start();
    assert_eq!(perft(&mut board, 1), 20);
}

#[test]
fn startpos_perft_depth_2() {
    let mut board = start();
    assert_eq!(perft(&mut board, 2), 400);
}

#[test]
fn startpos_perft_depth_3() {
    let mut board = start();
    assert_eq!(perft(&mut board, 3), 8_902);
}

#[test]
fn startpos_perft_depth_4() {
    let mut board = start();
    assert_eq!(perft(&mut board, 4), 197_281);
}

#[test]
fn kiwipete_perft_depth_1() {
    let mut board = Board::new();
    board.from_fen(KIWIPETE).unwrap();
    assert_eq!(perft(&mut board, 1), 48);
}

#[test]
fn kiwipete_perft_depth_2() {
    let mut board = Board::new();
    board.from_fen(KIWIPETE).unwrap();
    assert_eq!(perft(&mut board, 2), 2_039);
}

#[test]
fn kiwipete_perft_depth_3() {
    let mut board = Board::new();
    board.from_fen(KIWIPETE).unwrap();
    assert_eq!(perft(&mut board, 3), 97_862);
}

#[test]
fn startpos_from_fen_perft_depth_1() {
    let mut board = Board::new();
    board
        .from_fen("rnbqkbnr/pppppppp/8/8/8/8/PPPPPPPP/RNBQKBNR w KQkq - 0 1")
        .unwrap();
    assert_eq!(perft(&mut board, 1), 20);
}

#[test]
fn perft_leaves_position_unchanged() {
    let mut board = Board::new();
    board.from_fen(KIWIPETE).unwrap();
    let before: Vec<_> = (0..64).map(|s| board.piece_on(s)).collect();
    let rights = board.castling_rights();
    perft(&mut board, 2);
    let after: Vec<_> = (0..64).map(|s| board.piece_on(s)).collect();
    assert_eq!(before, after);
    assert_eq!(board.castling_rights(), rights);
    assert_eq!(board.ply(), 0);
}
