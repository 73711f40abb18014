use eeternal_rs::board::parse::FenError;
use eeternal_rs::board::Board;
use eeternal_rs::types::piece::Piece;
use eeternal_rs::types::square::Square;
use eeternal_rs::time_manager::Limits;
use eeternal_rs::types::color::Color;
use eeternal_rs::uci::go::{parse_go, GoCommand};
use eeternal_rs::uci::position::{handle_position, PositionIssue};
use eeternal_rs::uci::setoption::eval_file_option;

fn piece_at(board: &Board, rank: u8, file: u8) -> Piece {
    board.get_piece_on_square(Square::get_board_square(rank, file))
}

#[test]
fn position_startpos_with_moves() {
    let mut board = Board::parse_fen_string("8/8/8/8/8/8/8/K6k w - - 0 1").unwrap();
    let issues = handle_position(&mut board, "startpos moves e2e4 e7e5 g1f3");
    assert!(issues.is_empty());
    assert_eq!(piece_at(&board, 3, 4), Piece::WhitePawn);
    assert_eq!(piece_at(&board, 4, 4), Piece::BlackPawn);
    assert_eq!(piece_at(&board, 2, 5), Piece::WhiteKnight);
    assert_eq!(piece_at(&board, 0, 6), Piece::NoPiece);
    assert_eq!(board.full_move_number(), 2);
}

#[test]
fn position_startpos_alone() {
    let mut board = Board::parse_fen_string("8/8/8/8/8/8/8/K6k w - - 0 1").unwrap();
    let issues = handle_position(&mut board, "  startpos  ");
    assert!(issues.is_empty());
    assert_eq!(board.hash(), Board::startpos().hash());
}

#[test]
fn position_fen_with_moves() {
    let mut board = Board::startpos();
    let issues = handle_position(&mut board, "fen 4k3/8/8/8/8/8/4P3/4K3 w - - 0 1 moves e2e4");
    assert!(issues.is_empty());
    assert_eq!(piece_at(&board, 3, 4), Piece::WhitePawn);
    assert_eq!(piece_at(&board, 1, 4), Piece::NoPiece);
    assert_eq!(piece_at(&board, 7, 4), Piece::BlackKing);
}

#[test]
fn position_bad_fen_keeps_the_board_and_is_reported() {
    let mut board = Board::startpos();
    let before = board.hash();
    let issues = handle_position(&mut board, "fen 4k3/8/8/8/8/8/8/8 w - - 0 1");
    assert_eq!(issues.len(), 1);
    assert!(matches!(issues[0], PositionIssue::BadFen(FenError::MissingKing)));
    assert_eq!(board.hash(), before);
}

#[test]
fn position_illegal_moves_are_passed_over_and_reported() {
    let mut board = Board::startpos();
    let issues = handle_position(&mut board, "startpos moves e2e5 e2e4 xx e7e5");
    assert_eq!(issues.len(), 2);
    match &issues[0] {
        PositionIssue::BadMove(w) => assert_eq!(w.as_slice(), b"e2e5"),
        _ => panic!("expected a bad move"),
    }
    match &issues[1] {
        PositionIssue::BadMove(w) => assert_eq!(w.as_slice(), b"xx"),
        _ => panic!("expected a bad move"),
    }
    assert_eq!(piece_at(&board, 3, 4), Piece::WhitePawn);
    assert_eq!(piece_at(&board, 4, 4), Piece::BlackPawn);
}

#[test]
fn position_unknown_source_keeps_the_board() {
    let mut board = Board::parse_fen_string("4k3/8/8/8/8/8/4P3/4K3 w - - 0 1").unwrap();
    let issues = handle_position(&mut board, "somewhere moves e2e3");
    assert!(issues.is_empty());
    assert_eq!(piece_at(&board, 2, 4), Piece::WhitePawn);
}

#[test]
fn board_text_draws_the_start_position() {
    let text = Board::startpos().to_text();
    let expected = "+---+---+---+---+---+---+---+---+\n\
| r | n | b | q | k | b | n | r | 8\n\
+---+---+---+---+---+---+---+---+\n\
| p | p | p | p | p | p | p | p | 7\n\
+---+---+---+---+---+---+---+---+\n\
|   |   |   |   |   |   |   |   | 6\n\
+---+---+---+---+---+---+---+---+\n\
|   |   |   |   |   |   |   |   | 5\n\
+---+---+---+---+---+---+---+---+\n\
|   |   |   |   |   |   |   |   | 4\n\
+---+---+---+---+---+---+---+---+\n\
|   |   |   |   |   |   |   |   | 3\n\
+---+---+---+---+---+---+---+---+\n\
| P | P | P | P | P | P | P | P | 2\n\
+---+---+---+---+---+---+---+---+\n\
| R | N | B | Q | K | B | N | R | 1\n\
+---+---+---+---+---+---+---+---+\n";
    let expected = format!("{}{}", expected, "  a   b   c   d   e   f   g   h\n");
    assert_eq!(text, expected);
}

#[test]
fn go_perft_commands() {
    assert!(matches!(parse_go(Color::White, "perft 3"), GoCommand::Perft(3)));
    assert!(matches!(parse_go(Color::White, "bulkperft 5"), GoCommand::BulkPerft(5)));
    assert!(matches!(parse_go(Color::Black, "perft"), GoCommand::Perft(4)));
    assert!(matches!(parse_go(Color::Black, "perft x"), GoCommand::Perft(4)));
    assert!(matches!(parse_go(Color::White, "  perft  +2 "), GoCommand::Perft(2)));
    assert!(matches!(parse_go(Color::White, "superperft 2"), GoCommand::OtherPerft));
}

#[test]
fn go_search_commands() {
    assert!(matches!(parse_go(Color::White, "depth 7"), GoCommand::Search(Limits::Depth(7))));
    assert!(matches!(
        parse_go(Color::Black, "wtime 1000 btime 2000 winc 10 binc 20"),
        GoCommand::Search(Limits::Fischer(2000, 20))
    ));
    assert!(matches!(parse_go(Color::White, "infinite"), GoCommand::Search(Limits::Infinite)));
    assert!(matches!(parse_go(Color::White, ""), GoCommand::Search(Limits::Infinite)));
}

#[test]
fn setoption_eval_file() {
    assert_eq!(
        eval_file_option("name EvalFile value  nets/a.nnue ").as_deref(),
        Some(&b"nets/a.nnue"[..])
    );
    assert_eq!(eval_file_option("name evalfile value x").as_deref(), Some(&b"x"[..]));
    assert_eq!(eval_file_option("name  EVALFILE  value x").as_deref(), Some(&b"x"[..]));
    assert_eq!(eval_file_option("name Hash value 16"), None);
    assert_eq!(eval_file_option("name EvalFile"), None);
    assert_eq!(eval_file_option("EvalFile value x"), None);
}

#[test]
fn printed_moves_parse_back_to_themselves() {
    use_moves("rnbqkbnr/pppppppp/8/8/8/8/PPPPPPPP/RNBQKBNR w KQkq - 0 1");
    use_moves("r3k2r/p1ppqpb1/bn2pnp1/3PN3/1p2P3/2N2Q1p/PPPBBPPP/R3K2R w KQkq - 0 1");
    use_moves("rnbq1k1r/pp1Pbppp/2p5/8/2B5/8/PPP1NnPP/RNBQK2R w KQ - 1 8");
}

fn use_moves(fen: &str) {
    let board = Board::parse_fen_string(fen).unwrap();
    let list = board.generate_all_legal_moves(false);
    assert!(list.len() > 0);
    for i in 0..list.len() {
        let mv = list.get(i).mv();
        let text = mv.to_uci(&board);
        let found = eeternal_rs::uci::parse_uci_move(&board, &text).map(|e| e.mv());
        assert_eq!(found, Some(mv), "{text}");
    }
}

#[test]
fn position_double_push_sets_the_en_passant_square() {
    let mut board = Board::parse_fen_string("8/8/8/8/8/8/8/K6k w - - 0 1").unwrap();
    let issues = handle_position(&mut board, "startpos moves e2e4");
    assert!(issues.is_empty());
    let expected =
        Board::parse_fen_string("rnbqkbnr/pppppppp/8/8/4P3/8/PPPP1PPP/RNBQKBNR b KQkq e3 0 1").unwrap();
    assert_eq!(board.hash(), expected.hash());
    assert_eq!(board.en_passant().0, 20);
    assert_eq!(board.side_to_move(), Color::Black);
    assert_eq!(piece_at(&board, 3, 4), Piece::WhitePawn);
}
