use eeternal_rs::board::Board;

fn perft_of(fen: &str, depth: usize) -> u64 {
    let mut board = Board::parse_fen_string(fen).unwrap();
    board.perft(depth)
}

#[test]
fn perft_start_position() {
    let fen = "rnbqkbnr/pppppppp/8/8/8/8/PPPPPPPP/RNBQKBNR w KQkq - 0 1";
    assert_eq!(perft_of(fen, 0), 1);
    assert_eq!(perft_of(fen, 1), 20);
    assert_eq!(perft_of(fen, 2), 400);
    assert_eq!(perft_of(fen, 3), 8902);
}

#[test]
fn perft_kiwipete() {
    let fen = "r3k2r/p1ppqpb1/bn2pnp1/3PN3/1p2P3/2N2Q1p/PPPBBPPP/R3K2R w KQkq - ";
    assert_eq!(perft_of(fen, 1), 48);
    assert_eq!(perft_of(fen, 2), 2039);
}

#[test]
fn perft_endgame_with_en_passant_pins() {
    let fen = "8/2p5/3p4/KP5r/1R3p1k/8/4P1P1/8 w - - 0 1 ";
    assert_eq!(perft_of(fen, 1), 14);
    assert_eq!(perft_of(fen, 2), 191);
    assert_eq!(perft_of(fen, 3), 2812);
}

#[test]
fn perft_promotions_and_castling() {
    let fen = "r3k2r/Pppp1ppp/1b3nbN/nP6/BBP1P3/q4N2/Pp1P2PP/R2Q1RK1 w kq - 0 1";
    assert_eq!(perft_of(fen, 1), 6);
    assert_eq!(perft_of(fen, 2), 264);
    assert_eq!(perft_of(fen, 3), 9467);
}

#[test]
fn perft_position_five() {
    let fen = "rnbq1k1r/pp1Pbppp/2p5/8/2B5/8/PPP1NnPP/RNBQK2R w KQ - 1 8";
    assert_eq!(perft_of(fen, 1), 44);
    assert_eq!(perft_of(fen, 2), 1486);
}

#[test]
fn perft_position_six() {
    let fen = "r4rk1/1pp1qppp/p1np1n2/2b1p1B1/2B1P1b1/P1NP1N2/1PP1QPPP/R4RK1 w - - 0 10";
    assert_eq!(perft_of(fen, 1), 46);
    assert_eq!(perft_of(fen, 2), 2079);
}

#[test]
fn bulk_perft_agrees_with_perft() {
    let fen = "r3k2r/p1ppqpb1/bn2pnp1/3PN3/1p2P3/2N2Q1p/PPPBBPPP/R3K2R w KQkq - ";
    let mut board = Board::parse_fen_string(fen).unwrap();
    assert_eq!(board.perft_bulk(1), 48);
    assert_eq!(board.perft_bulk(2), 2039);
    assert_eq!(board.perft_bulk(0), 1);
}

#[test]
fn perft_leaves_the_board_unchanged() {
    let fen = "r3k2r/p1ppqpb1/bn2pnp1/3PN3/1p2P3/2N2Q1p/PPPBBPPP/R3K2R w KQkq - ";
    let mut board = Board::parse_fen_string(fen).unwrap();
    let before = board.clone();
    board.perft(2);
    assert_eq!(board.piece_squares, before.piece_squares);
    assert_eq!(board.hash(), before.hash());
    assert_eq!(board.half_move_number, before.half_move_number);
    assert_eq!(board.board_state_stack.len(), before.board_state_stack.len());
}
