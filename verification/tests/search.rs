use eeternal_rs::board::Board;
use eeternal_rs::search::info::info_line;
use eeternal_rs::search::move_ordering::{OrderedMoves, CAPTURE_VALUE};
use eeternal_rs::search::qsearch::qsearch;
use eeternal_rs::search::search_types::{Counter, RootMove, SearchData, SharedData};
use eeternal_rs::search::{begin_search, max_search_depth, root_step, NonPV};
use eeternal_rs::time_manager::{Limits, TimeManager};
use eeternal_rs::types::color::Color;
use eeternal_rs::types::move_list::MoveList;
use eeternal_rs::types::moves::{Move, MoveFlag};
use eeternal_rs::types::score::Score;
use eeternal_rs::types::square::Square;
use eeternal_rs::uci::{parse_limits, parse_uci_move, uci_command, UciCommand};

fn mv(from: u8, to: u8, flag: MoveFlag) -> Move {
    Move::new(Square::new(from), Square::new(to), flag)
}

#[test]
fn see_of_a_free_capture_is_the_value_taken() {
    // Re1xe5 takes an undefended pawn: nobody recaptures.
    let board = Board::parse_fen_string("1k1r4/1pp4p/p7/4p3/8/P5P1/1PP4P/2K1R3 w - - 0 1").unwrap();
    assert_eq!(board.see(mv(4, 36, MoveFlag::Capture)), 100);
}

#[test]
fn see_of_a_knight_taking_an_undefended_pawn() {
    let board = Board::parse_fen_string("4k3/8/8/3p4/8/4N3/8/4K3 w - - 0 1").unwrap();
    assert_eq!(board.see(mv(20, 35, MoveFlag::Capture)), 100);
}

#[test]
fn see_of_queen_taking_a_defended_pawn() {
    // Qd1xd5, exd5: the queen is lost for a pawn.
    let board = Board::parse_fen_string("4k3/8/4p3/3p4/8/8/8/3QK3 w - - 0 1").unwrap();
    assert_eq!(board.see(mv(3, 35, MoveFlag::Capture)), -1000);
}

#[test]
fn see_of_a_rook_taking_an_undefended_queen() {
    let board = Board::parse_fen_string("4k3/8/8/3q4/8/8/8/3RK3 w - - 0 1").unwrap();
    assert_eq!(board.see(mv(3, 35, MoveFlag::Capture)), 1100);
}

#[test]
fn see_of_a_quiet_move_is_zero() {
    let board = Board::startpos();
    assert_eq!(board.see(mv(12, 28, MoveFlag::DoublePush)), 0);
}

#[test]
fn ordering_hands_out_best_scores_first() {
    let mut list = MoveList::new();
    list.push(mv(8, 16, MoveFlag::Quiet));
    list.push(mv(9, 17, MoveFlag::Quiet));
    list.push(mv(10, 18, MoveFlag::Quiet));
    list.set_score(0, 5);
    list.set_score(1, 50);
    list.set_score(2, 50);
    let mut ordered = OrderedMoves::new(&mut list);
    let first = ordered.select_next_best();
    assert_eq!(first.score(), 50);
    assert_eq!(first.mv(), mv(9, 17, MoveFlag::Quiet));
    let second = ordered.select_next_best();
    assert_eq!(second.mv(), mv(10, 18, MoveFlag::Quiet));
    let third = ordered.select_next_best();
    assert_eq!(third.mv(), mv(8, 16, MoveFlag::Quiet));
}

#[test]
fn scoring_puts_the_table_move_first_and_captures_next() {
    let sd = SearchData::new(SharedData::new());
    let mut data = sd;
    data.set_board(&Board::parse_fen_string("4k3/8/8/3p4/4P3/8/8/4K3 w - - 0 1").unwrap());
    let mut list = data.board.generate_all_legal_moves(false);
    let tt_move = mv(4, 5, MoveFlag::Quiet);
    let mut ordered = OrderedMoves::new(&mut list);
    ordered.score_moves(&data, tt_move);
    for i in 0..list.len() {
        let e = list.get(i);
        if e.mv() == tt_move {
            assert_eq!(e.score(), i32::MAX);
        } else if e.mv().is_capture() {
            assert_eq!(e.score(), CAPTURE_VALUE + data.board.see(e.mv()));
        } else {
            assert_eq!(e.score(), 0);
        }
    }
}

#[test]
fn go_arguments_set_limits() {
    assert!(matches!(parse_limits(Color::White, "depth 5"), Limits::Depth(5)));
    assert!(matches!(parse_limits(Color::White, "movetime 1000"), Limits::Time(1000)));
    assert!(matches!(parse_limits(Color::White, "nodes 0 depth 3"), Limits::Depth(3)));
    assert!(matches!(parse_limits(Color::White, "nodes 4000"), Limits::Nodes(4000)));
    assert!(matches!(
        parse_limits(Color::White, "wtime 1000 btime 2000 winc 10 binc 20"),
        Limits::Fischer(1000, 10)
    ));
    assert!(matches!(
        parse_limits(Color::Black, "wtime 1000 btime 2000 winc 10 binc 20"),
        Limits::Fischer(2000, 20)
    ));
    assert!(matches!(
        parse_limits(Color::White, "wtime 1000 movestogo 40"),
        Limits::Cyclic(1000, 0, 40)
    ));
    assert!(matches!(parse_limits(Color::White, "binc 5"), Limits::Infinite));
    assert!(matches!(parse_limits(Color::White, "infinite"), Limits::Infinite));
    assert!(matches!(parse_limits(Color::White, ""), Limits::Infinite));
    assert!(matches!(parse_limits(Color::White, "depth x"), Limits::Infinite));
    assert!(matches!(parse_limits(Color::White, "depth"), Limits::Infinite));
    assert!(matches!(parse_limits(Color::White, "infinite depth 4"), Limits::Infinite));
    assert!(matches!(parse_limits(Color::White, "infinite 1 depth 4"), Limits::Depth(4)));
}

#[test]
fn coordinate_moves_are_found_among_legal_moves() {
    let board = Board::startpos();
    let e = parse_uci_move(&board, "g1f3").unwrap();
    assert_eq!(e.mv().from().0, 6);
    assert_eq!(e.mv().to().0, 21);
    assert!(parse_uci_move(&board, "g1g3").is_none());
    assert!(parse_uci_move(&board, "g1").is_none());
    let promo = Board::parse_fen_string("4k3/P7/8/8/8/8/8/4K3 w - - 0 1").unwrap();
    let q = parse_uci_move(&promo, "a7a8q").unwrap();
    assert!(q.mv().is_promotion());
    assert!(parse_uci_move(&promo, "a7a8").is_none());
    assert!(parse_uci_move(&promo, "a7a8x").is_none());
}

#[test]
fn search_finds_mate_in_one() {
    let mut data = SearchData::new(SharedData::new());
    data.set_board(&Board::parse_fen_string("6k1/5ppp/8/8/8/8/8/R5K1 w - - 0 1").unwrap());
    data.time_manager = TimeManager::from_bounds(Limits::Depth(2), u64::MAX, u64::MAX);
    let max_depth = max_search_depth(data.time_manager.limits());
    assert_eq!(max_depth, 2);
    let mut moves = begin_search(&mut data);
    assert!(!moves.is_empty());
    let mut depth = 1;
    while depth <= max_depth {
        if root_step(&mut data, &mut moves, depth, max_depth) {
            break;
        }
        depth += 1;
    }
    assert_eq!(data.root_move.mv.to_uci(&data.board), "a1a8");
    assert_eq!(data.root_move.score, Score::MATE - 1);
    assert_eq!(Score::score_to_mate_moves(data.root_move.score), 1);
}

#[test]
fn search_leaves_the_position_as_it_was() {
    let mut data = SearchData::new(SharedData::new());
    let board = Board::parse_fen_string("r3k2r/p1ppqpb1/bn2pnp1/3PN3/1p2P3/2N2Q1p/PPPBBPPP/R3K2R w KQkq - ").unwrap();
    data.set_board(&board);
    data.time_manager = TimeManager::from_bounds(Limits::Depth(2), u64::MAX, u64::MAX);
    let mut moves = begin_search(&mut data);
    root_step(&mut data, &mut moves, 1, 2);
    root_step(&mut data, &mut moves, 2, 2);
    assert_eq!(data.board.piece_squares, board.piece_squares);
    assert_eq!(data.board.hash(), board.hash());
    assert_eq!(data.completed_depth, 2);
    assert!(data.nodes() > 0);
}

#[test]
fn qsearch_returns_alpha_when_the_window_is_empty() {
    let mut data = SearchData::new(SharedData::new());
    assert_eq!(qsearch::<NonPV>(&mut data, 50, 10, 0), 50);
}

#[test]
fn qsearch_of_a_quiet_position_stands_pat() {
    let mut data = SearchData::new(SharedData::new());
    data.set_board(&Board::parse_fen_string("4k3/8/8/8/8/8/8/QR2K3 w - - 0 1").unwrap());
    assert_eq!(qsearch::<NonPV>(&mut data, -1000, 1000, 0), 1700);
    assert_eq!(qsearch::<NonPV>(&mut data, -5000, 5000, 0), 1700);
}

#[test]
fn qsearch_of_a_drawn_position_is_zero() {
    let mut data = SearchData::new(SharedData::new());
    data.set_board(&Board::parse_fen_string("4k3/8/8/8/8/8/8/4KN2 w - - 0 1").unwrap());
    assert_eq!(qsearch::<NonPV>(&mut data, -1000, 1000, 0), 0);
}

#[test]
fn counter_counts() {
    let mut c = Counter::default();
    c.increment();
    c.add(10);
    assert_eq!(c.count(), 11);
    c.reset();
    assert_eq!(c.count(), 0);
    let mut top = Counter::default();
    top.add(u64::MAX);
    top.increment();
    assert_eq!(top.count(), 0);
}

#[test]
fn root_move_starts_empty() {
    let r = RootMove::default();
    assert!(r.mv.is_none());
    assert_eq!(r.score, Score::NONE);
}

#[test]
fn time_limits() {
    let data = SearchData::new(SharedData::new());
    let nodes = TimeManager::from_bounds(Limits::Nodes(0), 10, 10);
    assert!(nodes.soft_limit_exceeded(&data.shared_data));
    let infinite = TimeManager::from_bounds(Limits::Infinite, 10, 10);
    assert!(!infinite.soft_limit_exceeded(&data.shared_data));
    assert!(!infinite.check_time(&data));
    let fischer = TimeManager::from_bounds(Limits::Fischer(1000, 10), 0, 0);
    assert_eq!(fischer.soft_bound_ms, 0);
    assert!(!fischer.check_time(&data));
    assert_eq!(max_search_depth(Limits::Depth(0)), 0);
    assert_eq!(max_search_depth(Limits::Depth(300)), 255);
    assert_eq!(max_search_depth(Limits::Infinite), 255);
}

#[test]
fn info_line_formats_every_field() {
    assert_eq!(
        info_line(5, 37, 12345, 250, 250_000, 3),
        "info depth 5 score cp 37 nodes 12345 time 250 nps 49380 hashfull 3 "
    );
    assert_eq!(
        info_line(1, -120, 0, 0, 0, 0),
        "info depth 1 score cp -120 nodes 0 time 0 nps 0 hashfull 0 "
    );
    assert_eq!(
        info_line(9, 31997, 10, 1, 1000, 0),
        "info depth 9 score mate 2 nodes 10 time 1 nps 10000 hashfull 0 "
    );
    assert_eq!(
        info_line(9, -31998, 10, 1, 0, 0),
        "info depth 9 score mate -1 nodes 10 time 1 nps 10000000 hashfull 0 "
    );
}

#[test]
fn ordered_moves_hand_out_every_entry_then_none() {
    let mut list = MoveList::new();
    list.push(mv(8, 16, MoveFlag::Quiet));
    list.push(mv(9, 17, MoveFlag::Quiet));
    list.set_score(0, 3);
    list.set_score(1, 7);
    let mut ordered = OrderedMoves::new(&mut list);
    assert_eq!(ordered.next().map(|e| e.mv()), Some(mv(9, 17, MoveFlag::Quiet)));
    assert_eq!(ordered.next().map(|e| e.mv()), Some(mv(8, 16, MoveFlag::Quiet)));
    assert!(ordered.next().is_none());
    assert!(ordered.next().is_none());
}

#[test]
fn stop_checks_answer_the_flag() {
    let mut data = SearchData::new(SharedData::new());
    assert!(!data.should_stop());
    assert!(!data.stop_flag());
    data.shared_data.stop.store(true, std::sync::atomic::Ordering::Relaxed);
    assert!(data.should_stop());
    assert!(data.stop_flag());
}

#[test]
fn qsearch_gives_the_stop_score_once_stopped() {
    let mut data = SearchData::new(SharedData::new());
    data.shared_data.stop.store(true, std::sync::atomic::Ordering::Relaxed);
    assert_eq!(qsearch::<NonPV>(&mut data, -1000, 1000, 0), Score::NONE);
}

#[test]
fn qsearch_takes_a_free_queen() {
    let mut data = SearchData::new(SharedData::new());
    data.set_board(&Board::parse_fen_string("4k3/8/8/3q4/8/8/8/3RK3 w - - 0 1").unwrap());
    // Stand pat is 600 - 1000 = -400; taking the queen leaves the rook alone: 600.
    assert_eq!(qsearch::<NonPV>(&mut data, -5000, 5000, 0), 600);
}

#[test]
fn qsearch_of_a_checkmated_side_is_mated_at_its_ply() {
    let mut data = SearchData::new(SharedData::new());
    data.set_board(&Board::parse_fen_string("R5k1/5ppp/8/8/8/8/8/6K1 b - - 0 1").unwrap());
    assert_eq!(qsearch::<NonPV>(&mut data, -Score::INF, Score::INF, 3), 3 - Score::MATE);
}

#[test]
fn root_step_puts_the_best_move_first_with_its_score() {
    let mut data = SearchData::new(SharedData::new());
    data.set_board(&Board::parse_fen_string("4k3/8/8/3q4/8/8/8/3RK3 w - - 0 1").unwrap());
    data.time_manager = TimeManager::from_bounds(Limits::Depth(1), u64::MAX, u64::MAX);
    let mut moves = begin_search(&mut data);
    assert!(root_step(&mut data, &mut moves, 1, 1));
    assert_eq!(data.root_move.mv.to_uci(&data.board), "d1d5");
    assert_eq!(data.root_move.score, 600);
    assert_eq!(moves.get(0).mv(), data.root_move.mv);
    assert_eq!(data.completed_depth, 1);
}

#[test]
fn command_lines_split_at_the_first_space() {
    assert_eq!(uci_command("position startpos moves e2e4"), (UciCommand::Position, 8));
    assert_eq!(uci_command("isready"), (UciCommand::IsReady, 7));
    assert_eq!(uci_command("go depth 5"), (UciCommand::Go, 2));
    assert_eq!(uci_command("ucinewgame"), (UciCommand::UciNewGame, 10));
    assert_eq!(uci_command("uci"), (UciCommand::Uci, 3));
    assert_eq!(uci_command("setoption name EvalFile value x"), (UciCommand::SetOption, 9));
    assert_eq!(uci_command("stop"), (UciCommand::Stop, 4));
    assert_eq!(uci_command("quit"), (UciCommand::Quit, 4));
    assert_eq!(uci_command("d"), (UciCommand::Display, 1));
    assert_eq!(uci_command("goo"), (UciCommand::Unknown, 3));
    assert_eq!(uci_command("hello world"), (UciCommand::Unknown, 5));
}
