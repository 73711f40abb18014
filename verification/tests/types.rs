use eeternal_rs::types::castling::{Castling, CastlingDirections};
use eeternal_rs::types::moves::{Move, MoveFlag};
use eeternal_rs::types::piece::{Piece, PieceType};
use eeternal_rs::types::score::Score;
use eeternal_rs::types::square::Square;
use eeternal_rs::types::tt::{Bound, TranspositionTable};

#[test]
fn castling_text_round_trip() {
    assert_eq!(Castling { raw: 0 }.to_string(), "-");
    assert_eq!(Castling { raw: 15 }.to_string(), "KQkq");
    assert_eq!(Castling { raw: 6 }.to_string(), "Qk");
    assert_eq!(Castling::try_from_str("KQ").unwrap().raw, 3);
    assert_eq!(Castling::try_from_str("-").unwrap().raw, 0);
    assert_eq!(Castling::try_from_str("kXq"), Err(b'X'));
    let mut c = Castling { raw: 0 };
    c.add(CastlingDirections::BlackQueenside);
    assert!(c.is_allowed(CastlingDirections::BlackQueenside));
    assert!(!c.is_allowed(CastlingDirections::WhiteKingside));
}

#[test]
fn move_fields_round_trip() {
    let m = Move::new(Square::new(12), Square::new(28), MoveFlag::DoublePush);
    assert_eq!(m.from().0, 12);
    assert_eq!(m.to().0, 28);
    assert_eq!(m.flag(), MoveFlag::DoublePush);
    assert!(!m.is_capture());
    let p = Move::new(Square::new(52), Square::new(61), MoveFlag::PromoCaptureRook);
    assert!(p.is_capture());
    assert!(p.is_promotion());
    assert_eq!(p.promotion_piece_type(), PieceType::Rook);
    assert!(Move::none().is_none());
}

#[test]
fn piece_values_and_letters() {
    assert_eq!(Piece::BlackQueen.value(), -1100);
    assert_eq!(Piece::WhiteKing.value(), 0);
    assert_eq!(PieceType::Knight.value(), 300);
    assert_eq!(Piece::try_from_char('n'), Some(Piece::BlackKnight));
    assert_eq!(Piece::try_from_char('x'), None);
    assert_eq!(Piece::WhiteRook.to_char(), Some('R'));
}

#[test]
fn mate_scores() {
    assert_eq!(Score::mated_in(5), -31995);
    assert_eq!(Score::score_to_mate_moves(31999), 1);
    assert_eq!(Score::score_to_mate_moves(31997), 2);
    assert_eq!(Score::score_to_mate_moves(-31998), -1);
}

#[test]
fn table_reads_back_what_was_stored() {
    let mut tt = TranspositionTable::new(1);
    let key = 0x1234_5678_9ABC_DEF0u64;
    let m = Move::new(Square::new(12), Square::new(28), MoveFlag::DoublePush);
    tt.store(key, m, 5, 123, Bound::Exact, 3);
    let r = tt.probe(key, 5, -1000, 1000, 3);
    assert_eq!(r.score, Some(123));
    assert_eq!(r.best_move, m);
    assert_eq!(r.depth, 5);
    let shallow = tt.probe(key, 6, -1000, 1000, 3);
    assert_eq!(shallow.score, None);
    assert_eq!(shallow.best_move, m);
    let other = tt.probe(key ^ 0xFFFF, 1, -1000, 1000, 3);
    assert_eq!(other.depth, -1);
}

#[test]
fn mate_scores_are_stored_relative_to_the_node() {
    assert_eq!(TranspositionTable::to_tt_score(31990, 4), 31994);
    assert_eq!(TranspositionTable::from_tt_score(31994, 4), 31990);
    assert_eq!(TranspositionTable::to_tt_score(-31990, 4), -31994);
    assert_eq!(TranspositionTable::to_tt_score(50, 4), 50);
    let mut tt = TranspositionTable::new(1);
    tt.store(99, Move::none(), 3, 31990, Bound::Exact, 4);
    assert_eq!(tt.probe(99, 3, -32001, 32001, 6).score, Some(31988));
}

#[test]
fn table_fills_up() {
    let mut tt = TranspositionTable::new(1);
    assert_eq!(tt.hashfull(), 0);
    for k in 0..5000u64 {
        tt.store(k.wrapping_mul(0x9E37_79B9_7F4A_7C15), Move::none(), 1, 0, Bound::Lower, 0);
    }
    assert!(tt.hashfull() > 0);
    tt.clear();
    assert_eq!(tt.hashfull(), 0);
}

#[test]
fn castling_text_reads_back_to_the_same_rights() {
    for raw in 0u8..16 {
        let c = Castling { raw };
        let text = c.to_string();
        assert_eq!(Castling::try_from_str(&text), Ok(c));
    }
}
