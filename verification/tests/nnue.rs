use eeternal_rs::board::Board;
use eeternal_rs::nnue::forward::scalar::{add, output, remove};
use eeternal_rs::nnue::{apply_move, evaluate, undo_move, Accumulator, NNUEParams, NET_BYTES};
use eeternal_rs::types::color::Color;
use eeternal_rs::uci::parse_uci_move;

fn params() -> Box<NNUEParams> {
    let mut p = Box::new(NNUEParams {
        input_weights: [[0i16; 128]; 768],
        input_biases: [0i16; 128],
        output_weights: [0i16; 256],
        output_bias: 0,
    });
    for f in 0..768 {
        for i in 0..128 {
            p.input_weights[f][i] = ((f * 7 + i * 13) % 61) as i16 - 30;
        }
    }
    for i in 0..128 {
        p.input_biases[i] = (i as i16) - 64;
        p.output_weights[i] = (i as i16 % 9) - 4;
        p.output_weights[128 + i] = (i as i16 % 5) - 2;
    }
    p.output_bias = 17;
    p
}

fn rebuilt(board: &Board, p: &NNUEParams) -> Accumulator {
    let mut acc = Accumulator::from_biases(p);
    acc.reset(board, p);
    acc
}

#[test]
fn apply_then_undo_restores_the_accumulator() {
    let p = params();
    let board = Board::parse_fen_string("r3k2r/p1ppqpb1/bn2pnp1/3PN3/1p2P3/2N2Q1p/PPPBBPPP/R3K2R w KQkq - ").unwrap();
    let start = rebuilt(&board, &p);
    let moves = board.generate_all_legal_moves(false);
    for i in 0..moves.len() {
        let mv = moves.get(i).mv();
        let mut acc = start;
        apply_move(&mut acc, &p, mv, &board);
        undo_move(&mut acc, &p, mv, &board);
        assert_eq!(acc.white, start.white);
        assert_eq!(acc.black, start.black);
    }
}

#[test]
fn incremental_update_matches_a_rebuild() {
    let p = params();
    let board = Board::parse_fen_string("r3k2r/Pppp1ppp/1b3nbN/nP6/BBP1P3/q4N2/Pp1P2PP/R2Q1RK1 w kq - 0 1").unwrap();
    let start = rebuilt(&board, &p);
    let moves = board.generate_all_legal_moves(false);
    for i in 0..moves.len() {
        let mv = moves.get(i).mv();
        let mut acc = start;
        apply_move(&mut acc, &p, mv, &board);
        let mut after = board.clone();
        after.make_move(mv);
        let fresh = rebuilt(&after, &p);
        assert_eq!(acc.white, fresh.white);
        assert_eq!(acc.black, fresh.black);
    }
}

#[test]
fn castling_and_en_passant_updates_match_a_rebuild() {
    let p = params();
    for (fen, text) in [
        ("r3k2r/8/8/8/8/8/8/R3K2R w KQkq - 0 1", "e1g1"),
        ("r3k2r/8/8/8/8/8/8/R3K2R w KQkq - 0 1", "e1c1"),
        ("4k3/8/8/3pP3/8/8/8/4K3 w - d6 0 1", "e5d6"),
    ] {
        let board = Board::parse_fen_string(fen).unwrap();
        let mut acc = rebuilt(&board, &p);
        let mv = parse_uci_move(&board, text).unwrap().mv();
        apply_move(&mut acc, &p, mv, &board);
        let mut after = board.clone();
        after.make_move(mv);
        let fresh = rebuilt(&after, &p);
        assert_eq!(acc.white, fresh.white);
        assert_eq!(acc.black, fresh.black);
    }
}

#[test]
fn add_and_remove_are_inverse() {
    let p = params();
    let mut acc = Accumulator::from_biases(&p);
    let before = acc;
    add(&mut acc, &p, 5, 700);
    assert_eq!(acc.white[3], before.white[3] + p.input_weights[5][3]);
    assert_eq!(acc.black[3], before.black[3] + p.input_weights[700][3]);
    remove(&mut acc, &p, 5, 700);
    assert_eq!(acc.white, before.white);
    assert_eq!(acc.black, before.black);
}

#[test]
fn lanes_wrap_instead_of_overflowing() {
    let mut p = params();
    p.input_weights[0][0] = i16::MAX;
    let mut acc = Accumulator::from_biases(&p);
    acc.white[0] = 1;
    add(&mut acc, &p, 0, 0);
    assert_eq!(acc.white[0], i16::MIN);
}

#[test]
fn output_of_a_simple_accumulator() {
    let mut p = params();
    for i in 0..256 {
        p.output_weights[i] = 0;
    }
    p.output_weights[0] = 64;
    p.output_bias = 0;
    let mut acc = Accumulator::from_biases(&p);
    acc.white = [0i16; 128];
    acc.black = [0i16; 128];
    acc.white[0] = 255;
    // (255 * 255 * 64) / 255 = 16320; * 400 / 16320 = 400
    assert_eq!(output(&acc, Color::White, &p), 400);
    assert_eq!(output(&acc, Color::Black, &p), 0);
    acc.white[0] = 1000;
    assert_eq!(output(&acc, Color::White, &p), 400);
    acc.white[0] = -7;
    assert_eq!(output(&acc, Color::White, &p), 0);
}

#[test]
fn evaluate_uses_the_side_to_move() {
    let p = params();
    let white = Board::parse_fen_string("4k3/8/8/8/8/8/8/QR2K3 w - - 0 1").unwrap();
    let black = Board::parse_fen_string("4k3/8/8/8/8/8/8/QR2K3 b - - 0 1").unwrap();
    let acc = rebuilt(&white, &p);
    assert_eq!(evaluate(&acc, &white, &p), output(&acc, Color::White, &p));
    assert_eq!(evaluate(&acc, &black, &p), output(&acc, Color::Black, &p));
}

#[test]
fn network_bytes_are_read_little_endian_in_field_order() {
    let mut p = params();
    let mut bytes = vec![0u8; NET_BYTES];
    bytes[0] = 0x34;
    bytes[1] = 0x12;
    bytes[2 * 129] = 0xfe;
    bytes[2 * 129 + 1] = 0xff;
    bytes[2 * 98304] = 5;
    bytes[2 * 98432 + 2 * 255] = 0x00;
    bytes[2 * 98432 + 2 * 255 + 1] = 0x80;
    bytes[NET_BYTES - 2] = 0xff;
    bytes[NET_BYTES - 1] = 0xff;
    assert!(p.read_from_bytes(&bytes));
    assert_eq!(p.input_weights[0][0], 0x1234);
    assert_eq!(p.input_weights[1][1], -2);
    assert_eq!(p.input_weights[1][0], 0);
    assert_eq!(p.input_biases[0], 5);
    assert_eq!(p.output_weights[255], i16::MIN);
    assert_eq!(p.output_bias, -1);
}

#[test]
fn network_bytes_of_the_wrong_size_are_refused() {
    let mut p = params();
    let before = p.output_bias;
    assert!(!p.read_from_bytes(&[0u8; 10]));
    assert_eq!(p.output_bias, before);
    assert_eq!(p.input_weights[3][4], params().input_weights[3][4]);
}
