use chess_core::chessboard::ChessBoard;
use chess_core::tables::AttackTables;

fn count(fen: &str, depth: usize) -> u64 {
    let tables = AttackTables::new().unwrap();
    let board = ChessBoard::from_fen(fen, &tables).unwrap();
    board.perft_count(&tables, depth)
}

#[test]
fn perft_start_position() {
    let tables = AttackTables::new().unwrap();
    let board = ChessBoard::default();
    assert_eq!(board.perft_count(&tables, 0), 1);
    assert_eq!(board.perft_count(&tables, 1), 20);
    assert_eq!(board.perft_count(&tables, 2), 400);
    assert_eq!(board.perft_count(&tables, 3), 8902);
}

#[test]
fn perft_start_position_depth_four() {
    let tables = AttackTables::new().unwrap();
    let board = ChessBoard::default();
    assert_eq!(board.perft_count(&tables, 4), 197281);
}

#[test]
fn perft_kiwipete() {
    let fen = "r3k2r/p1ppqpb1/bn2pnp1/3PN3/1p2P3/2N2Q1p/PPPBBPPP/R3K2R w KQkq - 0 1";
    assert_eq!(count(fen, 1), 48);
    assert_eq!(count(fen, 2), 2039);
    assert_eq!(count(fen, 3), 97862);
}

#[test]
fn perft_rook_endgame() {
    let fen = "8/2p5/3p4/KP5r/1R3p1k/8/4P1P1/8 w - - 0 1";
    assert_eq!(count(fen, 1), 14);
    assert_eq!(count(fen, 2), 191);
    assert_eq!(count(fen, 3), 2812);
    assert_eq!(count(fen, 4), 43238);
}

#[test]
fn perft_pins_and_en_passant() {
    let fen = "r3k2r/Pppp1ppp/1b3nbN/nP6/BBP1P3/q4N2/Pp1P2PP/R2Q1RK1 w kq - 0 1";
    assert_eq!(count(fen, 1), 6);
    assert_eq!(count(fen, 2), 264);
    assert_eq!(count(fen, 3), 9467);
}

#[test]
fn perft_symmetric_pins() {
    let fen = "rnbq1k1r/pp1Pbppp/2p5/8/2B5/8/PPP1NnPP/RNBQK2R w KQ - 1 8";
    assert_eq!(count(fen, 1), 44);
    assert_eq!(count(fen, 2), 1486);
    assert_eq!(count(fen, 3), 62379);
}

#[test]
fn perft_start_position_depth_five() {
    let tables = AttackTables::new().unwrap();
    let board = ChessBoard::default();
    assert_eq!(board.perft_count(&tables, 5), 4865609);
}

#[test]
fn perft_kiwipete_depth_four() {
    let fen = "r3k2r/p1ppqpb1/bn2pnp1/3PN3/1p2P3/2N2Q1p/PPPBBPPP/R3K2R w KQkq - 0 1";
    assert_eq!(count(fen, 4), 4085603);
}

#[test]
fn perft_rook_endgame_depth_five() {
    let fen = "8/2p5/3p4/KP5r/1R3p1k/8/4P1P1/8 w - - 0 1";
    assert_eq!(count(fen, 5), 674624);
}

#[test]
fn perft_pins_and_en_passant_depth_four() {
    let fen = "r3k2r/Pppp1ppp/1b3nbN/nP6/BBP1P3/q4N2/Pp1P2PP/R2Q1RK1 w kq - 0 1";
    assert_eq!(count(fen, 4), 422333);
}

#[test]
fn perft_symmetric_pins_depth_four() {
    let fen = "rnbq1k1r/pp1Pbppp/2p5/8/2B5/8/PPP1NnPP/RNBQK2R w KQ - 1 8";
    assert_eq!(count(fen, 4), 2103487);
}

#[test]
fn perft_rook_endgame_depth_six() {
    let fen = "8/2p5/3p4/KP5r/1R3p1k/8/4P1P1/8 w - - 0 1";
    assert_eq!(count(fen, 6), 11030083);
}

#[test]
fn perft_pins_and_en_passant_depth_five() {
    let fen = "r3k2r/Pppp1ppp/1b3nbN/nP6/BBP1P3/q4N2/Pp1P2PP/R2Q1RK1 w kq - 0 1";
    assert_eq!(count(fen, 5), 15833292);
}
