use eeternal_rs::board::parse::{FenError, STARTPOS};
use eeternal_rs::board::Board;
use eeternal_rs::types::color::Color;
use eeternal_rs::types::moves::{Move, MoveFlag};
use eeternal_rs::types::piece::Piece;
use eeternal_rs::types::square::Square;
use eeternal_rs::uci::play_uci_move;

#[test]
fn startpos_reads_the_start_fen() {
    let board = Board::startpos();
    assert_eq!(board.side_to_move(), Color::White);
    assert_eq!(board.board_state.castling.raw, 15);
    assert_eq!(board.en_passant().0, 64);
    assert_eq!(board.board_state.half_move_clock, 0);
    assert_eq!(board.full_move_number(), 1);
    assert_eq!(board.material(), 0);
    assert_eq!(board.get_piece_on_square(Square::new(4)), Piece::WhiteKing);
    assert_eq!(board.get_piece_on_square(Square::new(60)), Piece::BlackKing);
    assert_eq!(board.get_piece_on_square(Square::new(8)), Piece::WhitePawn);
    assert_eq!(board.get_piece_on_square(Square::new(63)), Piece::BlackRook);
    assert_eq!(board.occupancies().0, 0xFFFF_0000_0000_FFFF);
    let parsed = Board::parse_fen_string(STARTPOS).unwrap();
    assert_eq!(parsed.hash(), board.hash());
}

#[test]
fn fen_fields_are_read() {
    let board = Board::parse_fen_string("4k3/8/8/3pP3/8/8/8/4K3 w Kq d6 17 42").unwrap();
    assert_eq!(board.board_state.castling.raw, 1 | 8);
    assert_eq!(board.en_passant().0, 43);
    assert_eq!(board.board_state.half_move_clock, 17);
    assert_eq!(board.full_move_number(), 42);
    assert_eq!(board.half_move_number, 84);
    assert_eq!(board.material(), 0);
}

#[test]
fn fen_black_to_move_and_missing_counters() {
    let board = Board::parse_fen_string("4k3/8/8/8/8/8/8/Q3K3 b - -").unwrap();
    assert_eq!(board.side_to_move(), Color::Black);
    assert_eq!(board.en_passant().0, 64);
    assert_eq!(board.board_state.half_move_clock, 0);
    assert_eq!(board.half_move_number, 1);
    assert_eq!(board.material(), 1100);
}

#[test]
fn fen_unreadable_counters_become_zero() {
    let board = Board::parse_fen_string("4k3/8/8/8/8/8/8/4K3 w - zz 300 x").unwrap();
    assert_eq!(board.en_passant().0, 64);
    assert_eq!(board.board_state.half_move_clock, 0);
    assert_eq!(board.half_move_number, 0);
}

#[test]
fn fen_plus_sign_is_accepted() {
    let board = Board::parse_fen_string("4k3/8/8/8/8/8/8/4K3 w - - +5 +3").unwrap();
    assert_eq!(board.board_state.half_move_clock, 5);
    assert_eq!(board.half_move_number, 6);
}

#[test]
fn fen_errors() {
    assert_eq!(Board::parse_fen_string("").err(), Some(FenError::MissingPlacement));
    assert_eq!(Board::parse_fen_string("   ").err(), Some(FenError::MissingPlacement));
    assert_eq!(
        Board::parse_fen_string("4k3/8/8/8/8/8/8/4X3 w - - 0 1").err(),
        Some(FenError::BadPiece(b'X'))
    );
    assert_eq!(
        Board::parse_fen_string("4k3/8/8/8/8/8/8/4K3 x - - 0 1").err(),
        Some(FenError::BadSideToMove)
    );
    assert_eq!(Board::parse_fen_string("4k3/8/8/8/8/8/8/4K3").err(), Some(FenError::BadSideToMove));
    assert_eq!(Board::parse_fen_string("4k3/8/8/8/8/8/8/4K3 w").err(), Some(FenError::MissingCastling));
    assert_eq!(
        Board::parse_fen_string("4k3/8/8/8/8/8/8/4K3 w KX - 0 1").err(),
        Some(FenError::BadCastling(b'X'))
    );
    assert_eq!(
        Board::parse_fen_string("8/8/8/8/8/8/8/4K3 w - - 0 1").err(),
        Some(FenError::MissingKing)
    );
    assert_eq!(
        Board::parse_fen_string("4k3Q/8/8/8/8/8/8/4K3 w - - 0 1").err(),
        Some(FenError::OffBoard)
    );
    assert_eq!(
        Board::parse_fen_string("4k3/8/8/8/8/8/1P6/4K4Q w - - 0 1").err(),
        Some(FenError::OffBoard)
    );
    // a piece past the h-file of the first rank lands on the second rank, as the column
    // count runs on
    let spill = Board::parse_fen_string("4k3/8/8/8/8/8/8/4K4Q w - - 0 1").unwrap();
    assert_eq!(spill.get_piece_on_square(Square::new(9)), Piece::WhiteQueen);
}

#[test]
fn fen_errors_follow_the_order_of_the_ranks_read() {
    // the last rank written is read first
    assert_eq!(
        Board::parse_fen_string("4k3/8/8/8/8/8/8/4K2Y w - - 0 1").err(),
        Some(FenError::BadPiece(b'Y'))
    );
    assert_eq!(
        Board::parse_fen_string("Z3k3/8/8/8/8/8/8/4K2Y w - - 0 1").err(),
        Some(FenError::BadPiece(b'Y'))
    );
}

#[test]
fn fen_tabs_and_unicode_spaces_separate_fields() {
    let board = Board::parse_fen_string("4k3/8/8/8/8/8/8/4K3\tb\u{00A0}-\u{3000}-  3 9").unwrap();
    assert_eq!(board.side_to_move(), Color::Black);
    assert_eq!(board.board_state.half_move_clock, 3);
    assert_eq!(board.half_move_number, 19);
}

#[test]
fn evaluate_counts_material_for_the_side_to_move() {
    let white = Board::parse_fen_string("4k3/8/8/8/8/8/8/QR2K3 w - - 0 1").unwrap();
    assert_eq!(white.evaluate(), 1700);
    let black = Board::parse_fen_string("4k3/8/8/8/8/8/8/QR2K3 b - - 0 1").unwrap();
    assert_eq!(black.evaluate(), -1700);
    let mixed = Board::parse_fen_string("3qk3/pp6/8/8/8/8/8/4KNB1 w - - 0 1").unwrap();
    assert_eq!(mixed.evaluate(), 700 - 1300);
    assert_eq!(Board::startpos().evaluate(), 0);
}

#[test]
fn draws_by_material_and_fifty_moves() {
    assert!(Board::parse_fen_string("4k3/8/8/8/8/8/8/4K3 w - - 0 1").unwrap().is_draw());
    assert!(Board::parse_fen_string("4k3/8/8/8/8/8/8/4KN2 w - - 0 1").unwrap().is_draw());
    assert!(!Board::parse_fen_string("4k3/8/8/8/8/8/8/4KR2 w - - 0 1").unwrap().is_draw());
    assert!(Board::parse_fen_string("4k3/8/8/8/8/8/8/4KR2 w - - 100 60").unwrap().draw_by_fifty_moves());
    assert!(!Board::parse_fen_string("4k3/8/8/8/8/8/8/4KR2 w - - 99 60").unwrap().draw_by_fifty_moves());
    assert!(!Board::startpos().draw_by_repetition());
}

#[test]
fn make_and_undo_restore_the_board() {
    let mut board = Board::parse_fen_string("r3k2r/p1ppqpb1/bn2pnp1/3PN3/1p2P3/2N2Q1p/PPPBBPPP/R3K2R w KQkq - ").unwrap();
    let before = board.clone();
    let moves = board.generate_all_legal_moves(false);
    for i in 0..moves.len() {
        let mv = moves.get(i).mv();
        board.make_move(mv);
        board.undo_move(mv);
        assert_eq!(board.piece_squares, before.piece_squares);
        assert_eq!(board.hash(), before.hash());
        assert_eq!(board.material(), before.material());
        assert_eq!(board.half_move_number, before.half_move_number);
        assert_eq!(board.board_state.castling, before.board_state.castling);
    }
}

#[test]
fn incremental_hash_matches_hash_from_scratch() {
    let mut board = Board::parse_fen_string("r3k2r/p1ppqpb1/bn2pnp1/3PN3/1p2P3/2N2Q1p/PPPBBPPP/R3K2R w KQkq - ").unwrap();
    let moves = board.generate_all_legal_moves(false);
    for i in 0..moves.len() {
        let mv = moves.get(i).mv();
        board.make_move(mv);
        let mut fresh = board.clone();
        fresh.refresh_hash();
        assert_eq!(board.hash(), fresh.hash(), "move {}", mv.to_uci(&board));
        board.undo_move(mv);
    }
}

#[test]
fn material_follows_captures() {
    let mut board = Board::parse_fen_string("4k3/8/8/3q4/4P3/8/8/4K3 w - - 0 1").unwrap();
    assert_eq!(board.material(), 100 - 1100);
    assert!(play_uci_move(&mut board, "e4d5"));
    assert_eq!(board.material(), 100);
    assert_eq!(board.side_to_move(), Color::Black);
}

#[test]
fn double_push_sets_en_passant_and_capture_uses_it() {
    let mut board = Board::parse_fen_string("4k3/8/8/8/3p4/8/4P3/4K3 w - - 0 1").unwrap();
    assert!(play_uci_move(&mut board, "e2e4"));
    assert_eq!(board.en_passant().0, 20);
    assert!(play_uci_move(&mut board, "d4e3"));
    assert_eq!(board.get_piece_on_square(Square::new(28)), Piece::NoPiece);
    assert_eq!(board.get_piece_on_square(Square::new(20)), Piece::BlackPawn);
    assert_eq!(board.material(), -100);
}

#[test]
fn castling_moves_the_rook_and_drops_rights() {
    let mut board = Board::parse_fen_string("r3k2r/8/8/8/8/8/8/R3K2R w KQkq - 0 1").unwrap();
    assert!(play_uci_move(&mut board, "e1g1"));
    assert_eq!(board.get_piece_on_square(Square::new(6)), Piece::WhiteKing);
    assert_eq!(board.get_piece_on_square(Square::new(5)), Piece::WhiteRook);
    assert_eq!(board.get_piece_on_square(Square::new(7)), Piece::NoPiece);
    assert_eq!(board.board_state.castling.raw, 4 | 8);
    assert_eq!(board.board_state.castling.to_string(), "kq");
}

#[test]
fn promotion_by_letter() {
    let mut board = Board::parse_fen_string("4k3/P7/8/8/8/8/8/4K3 w - - 0 1").unwrap();
    assert!(play_uci_move(&mut board, "a7a8n"));
    assert_eq!(board.get_piece_on_square(Square::new(56)), Piece::WhiteKnight);
    assert_eq!(board.material(), 300);
}

#[test]
fn unknown_or_illegal_moves_are_refused() {
    let mut board = Board::startpos();
    assert!(!play_uci_move(&mut board, "e2e5"));
    assert!(!play_uci_move(&mut board, "e2"));
    assert!(!play_uci_move(&mut board, "z9e4"));
    assert_eq!(board.half_move_number, 2);
}

#[test]
fn moves_print_in_coordinate_notation() {
    let board = Board::startpos();
    assert_eq!(Move::new(Square::new(12), Square::new(28), MoveFlag::DoublePush).to_uci(&board), "e2e4");
    assert_eq!(Move::new(Square::new(52), Square::new(60), MoveFlag::PromoQueen).to_uci(&board), "e7e8q");
    assert_eq!(Move::new(Square::new(9), Square::new(0), MoveFlag::PromoCaptureKnight).to_uci(&board), "b2a1n");
    assert_eq!(Move::new(Square::new(63), Square::new(0), MoveFlag::Quiet).to_uci(&board), "h8a1");
}

#[test]
fn check_is_detected() {
    let open = Board::parse_fen_string("4k3/8/8/8/8/8/8/4K2r w - - 0 1").unwrap();
    assert!(open.in_check());
    let blocked = Board::parse_fen_string("4k3/8/8/8/8/8/8/4KR1r w - - 0 1").unwrap();
    assert!(!blocked.in_check());
    let knight = Board::parse_fen_string("4k3/8/8/8/8/5n2/8/4K3 w - - 0 1").unwrap();
    assert!(knight.in_check());
    let pawn = Board::parse_fen_string("4k3/8/8/8/8/8/3p4/4K3 w - - 0 1").unwrap();
    assert!(pawn.in_check());
    let none = Board::parse_fen_string("4k3/8/8/8/8/8/7r/3K4 w - - 0 1").unwrap();
    assert!(!none.in_check());
}

#[test]
fn pins_and_checkers_are_recorded() {
    // White king e1, white knight e2, black rook e4: the knight is pinned, no check.
    let pinned = Board::parse_fen_string("4k3/8/8/8/4r3/8/4N3/4K3 w - - 0 1").unwrap();
    let e2 = 1u64 << 12;
    let e4 = 1u64 << 28;
    assert_eq!(pinned.board_state.checkers.0, 0);
    assert_eq!(pinned.board_state.pinned[0].0, e2);
    assert_eq!(pinned.board_state.pinners[1].0, e4);
    assert_eq!(pinned.board_state.pinned[1].0, 0);
    assert_eq!(pinned.board_state.pinners[0].0, 0);
    // Two white pieces between: neither pinned.
    let double = Board::parse_fen_string("4k3/8/8/8/4r3/4B3/4N3/4K3 w - - 0 1").unwrap();
    assert_eq!(double.board_state.pinned[0].0, 0);
    assert_eq!(double.board_state.pinners[1].0, 0);
    // A black piece between closes the line.
    let closed = Board::parse_fen_string("4k3/8/8/8/4r3/4b3/4N3/4K3 w - - 0 1").unwrap();
    assert_eq!(closed.board_state.pinned[0].0, 0);
    // Rook and knight give check together.
    let double_check = Board::parse_fen_string("4k3/8/8/8/4r3/5n2/8/4K3 w - - 0 1").unwrap();
    assert_eq!(double_check.board_state.checkers.0, e4 | (1u64 << 21));
    // Black to move: checks on the black king only.
    let black = Board::parse_fen_string("4k3/4R3/8/8/8/8/8/4K3 b - - 0 1").unwrap();
    assert_eq!(black.board_state.checkers.0, 1u64 << 52);
}

#[test]
fn default_board_is_empty_with_white_to_move() {
    let board = Board::default();
    for sq in 0..64u8 {
        assert_eq!(board.get_piece_on_square(Square::new(sq)), Piece::NoPiece);
    }
    assert_eq!(board.side_to_move(), Color::White);
    assert_eq!(board.hash(), 0);
}

fn threats_after_each_move(fen: &str) {
    let board = Board::parse_fen_string(fen).unwrap();
    let list = board.generate_all_legal_moves(false);
    for i in 0..list.len() {
        let mv = list.get(i).mv();
        let mut after = board.clone();
        after.make_move(mv);
        let mut fresh = after.clone();
        fresh.refresh_piece_threats();
        for c in 0..2 {
            for k in 0..6 {
                assert_eq!(
                    after.board_state.piece_threats[c][k].0,
                    fresh.board_state.piece_threats[c][k].0,
                    "{fen} {} bucket {c} {k}",
                    mv.to_uci(&board)
                );
            }
            assert_eq!(after.board_state.threats_by[c].0, fresh.board_state.threats_by[c].0);
        }
    }
}

#[test]
fn recorded_attacks_after_a_move_match_a_fresh_count() {
    threats_after_each_move("rnbqkbnr/pppppppp/8/8/8/8/PPPPPPPP/RNBQKBNR w KQkq - 0 1");
    threats_after_each_move("r3k2r/p1ppqpb1/bn2pnp1/3PN3/1p2P3/2N2Q1p/PPPBBPPP/R3K2R w KQkq - 0 1");
    threats_after_each_move("8/2p5/3p4/KP5r/1R3p1k/8/4P1P1/8 w - - 0 1");
    threats_after_each_move("r3k2r/Pppp1ppp/1b3nbN/nP6/BBP1P3/q4N2/Pp1P2PP/R2Q1RK1 w kq - 0 1");
    threats_after_each_move("rnbq1k1r/pp1Pbppp/2p5/8/2B5/8/PPP1NnPP/RNBQK2R w KQ - 1 8");
}

fn generated_moves_pass_the_legality_check(fen: &str) {
    let board = Board::parse_fen_string(fen).unwrap();
    for captures_only in [false, true] {
        let list = board.generate_all_legal_moves(captures_only);
        for i in 0..list.len() {
            let mv = list.get(i).mv();
            assert!(mv.is_castling() || board.is_legal(mv), "{fen} {}", mv.to_uci(&board));
        }
    }
}

#[test]
fn generated_moves_are_accepted_by_is_legal() {
    generated_moves_pass_the_legality_check("rnbqkbnr/pppppppp/8/8/8/8/PPPPPPPP/RNBQKBNR w KQkq - 0 1");
    generated_moves_pass_the_legality_check("r3k2r/p1ppqpb1/bn2pnp1/3PN3/1p2P3/2N2Q1p/PPPBBPPP/R3K2R w KQkq - 0 1");
    generated_moves_pass_the_legality_check("8/2p5/3p4/KP5r/1R3p1k/8/4P1P1/8 w - - 0 1");
    generated_moves_pass_the_legality_check("4k3/8/8/8/4r3/8/4N3/4K3 w - - 0 1");
    generated_moves_pass_the_legality_check("4k3/8/8/8/4r3/5n2/8/4K3 w - - 0 1");
    generated_moves_pass_the_legality_check("4k3/8/8/8/8/8/3p4/4K3 w - - 0 1");
}

fn made_moves_leave_the_king_unattacked(fen: &str) {
    let board = Board::parse_fen_string(fen).unwrap();
    let mover = board.side_to_move();
    let list = board.generate_all_legal_moves(false);
    for i in 0..list.len() {
        let mv = list.get(i).mv();
        let mut after = board.clone();
        after.make_move(mv);
        after.refresh_piece_threats();
        let king = after.king_square(mover);
        let attacked = (after.board_state.threats_by[mover.flip().index()].0 >> king.0) & 1;
        assert_eq!(attacked, 0, "{fen} {}", mv.to_uci(&board));
    }
}

#[test]
fn generated_moves_leave_the_king_unattacked() {
    made_moves_leave_the_king_unattacked("rnbqkbnr/pppppppp/8/8/8/8/PPPPPPPP/RNBQKBNR w KQkq - 0 1");
    made_moves_leave_the_king_unattacked("r3k2r/p1ppqpb1/bn2pnp1/3PN3/1p2P3/2N2Q1p/PPPBBPPP/R3K2R w KQkq - 0 1");
    made_moves_leave_the_king_unattacked("8/2p5/3p4/KP5r/1R3p1k/8/4P1P1/8 w - - 0 1");
    made_moves_leave_the_king_unattacked("r3k2r/Pppp1ppp/1b3nbN/nP6/BBP1P3/q4N2/Pp1P2PP/R2Q1RK1 w kq - 0 1");
    made_moves_leave_the_king_unattacked("8/8/8/KPp4r/8/8/8/7k w - c6 0 2");
    made_moves_leave_the_king_unattacked("4k3/8/8/8/4r3/8/4N3/4K3 w - - 0 1");
}

#[test]
fn castling_right_without_its_rook_moves_whatever_stands_in_the_corner() {
    // The right to castle long is held with the black king on a1 in place of a white rook:
    // the generator castles all the same, and the black king lands next to the white one.
    let board = Board::parse_fen_string("8/8/8/8/8/8/8/k3K3 w Q - 0 1").unwrap();
    let list = board.generate_all_legal_moves(false);
    let mut found = false;
    for i in 0..list.len() {
        let mv = list.get(i).mv();
        if mv.is_castling() {
            found = true;
            let mut after = board.clone();
            after.make_move(mv);
            after.refresh_piece_threats();
            let king = after.king_square(Color::White);
            assert_eq!(king.0, 2);
            assert_eq!((after.board_state.threats_by[1].0 >> king.0) & 1, 1);
        }
    }
    assert!(found);
}

fn listed_once_and_captures_match(fen: &str) {
    let board = Board::parse_fen_string(fen).unwrap();
    let all = board.generate_all_legal_moves(false);
    let caps = board.generate_all_legal_moves(true);
    let mut all_moves = Vec::new();
    for i in 0..all.len() {
        let m = all.get(i).mv();
        assert!(!all_moves.contains(&m.0), "{fen} {} twice", m.to_uci(&board));
        all_moves.push(m.0);
    }
    let mut cap_moves = Vec::new();
    for i in 0..caps.len() {
        let m = caps.get(i).mv();
        assert!(m.is_capture(), "{fen} {}", m.to_uci(&board));
        assert!(!cap_moves.contains(&m.0));
        cap_moves.push(m.0);
    }
    let mut expected: Vec<u16> = Vec::new();
    for i in 0..all.len() {
        let m = all.get(i).mv();
        if m.is_capture() {
            expected.push(m.0);
        }
    }
    expected.sort();
    cap_moves.sort();
    assert_eq!(cap_moves, expected, "{fen}");
}

#[test]
fn each_move_is_listed_once_and_captures_only_lists_the_captures() {
    listed_once_and_captures_match("rnbqkbnr/pppppppp/8/8/8/8/PPPPPPPP/RNBQKBNR w KQkq - 0 1");
    listed_once_and_captures_match("r3k2r/p1ppqpb1/bn2pnp1/3PN3/1p2P3/2N2Q1p/PPPBBPPP/R3K2R w KQkq - 0 1");
    listed_once_and_captures_match("8/2p5/3p4/KP5r/1R3p1k/8/4P1P1/8 w - - 0 1");
    listed_once_and_captures_match("r3k2r/Pppp1ppp/1b3nbN/nP6/BBP1P3/q4N2/Pp1P2PP/R2Q1RK1 w kq - 0 1");
    listed_once_and_captures_match("rnbq1k1r/pp1Pbppp/2p5/8/2B5/8/PPP1NnPP/RNBQK2R w KQ - 1 8");
}

#[test]
fn castling_through_an_attacked_square_is_left_out() {
    // The rook on f8 attacks f1, so no short castling; b1 attacked by the b8 rook does not
    // stop long castling.
    let board = Board::parse_fen_string("1r3r1k/8/8/8/8/8/8/R3K2R w KQ - 0 1").unwrap();
    let list = board.generate_all_legal_moves(false);
    let mut castles = Vec::new();
    for i in 0..list.len() {
        let m = list.get(i).mv();
        if m.is_castling() {
            castles.push(m.to_uci(&board));
        }
    }
    assert_eq!(castles, vec!["e1c1".to_string()]);
}

#[test]
fn promotions_come_queen_rook_bishop_knight() {
    let board = Board::parse_fen_string("4k3/P7/8/8/8/8/8/4K3 w - - 0 1").unwrap();
    let list = board.generate_all_legal_moves(false);
    let mut promos = Vec::new();
    for i in 0..list.len() {
        let m = list.get(i).mv();
        if m.is_promotion() {
            promos.push(m.to_uci(&board));
        }
    }
    assert_eq!(promos, vec!["a7a8q", "a7a8r", "a7a8b", "a7a8n"]);
}

#[test]
fn attacks_through_a_checked_king_go_stale_in_an_illegal_position() {
    // Black's king on a4 stands in check from the rook on a1 with white to move; the knight
    // leaving a6 lengthens the rook's line past the king, which the update does not see.
    let board = Board::parse_fen_string("8/8/N7/8/k7/8/8/R3K3 w - - 0 1").unwrap();
    let list = board.generate_all_legal_moves(false);
    let mut found = false;
    for i in 0..list.len() {
        let mv = list.get(i).mv();
        if mv.to_uci(&board) == "a6b8" {
            let mut after = board.clone();
            after.make_move(mv);
            let mut fresh = after.clone();
            fresh.refresh_piece_threats();
            assert_ne!(after.board_state.piece_threats[0][3].0, fresh.board_state.piece_threats[0][3].0);
            found = true;
        }
    }
    assert!(found);
}
