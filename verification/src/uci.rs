pub mod go;
pub mod position;
pub mod setoption;

use vstd::prelude::*;
use vstd::string::StringSliceAdditionalSpecFns;
use crate::board::Board;
use crate::board::generate_moves::{
    owed, lemma_owed_listed, all_owed, owed_co, castles_from_king, lemma_owed_code_unique,
};
use crate::board::make_move::ep_victim;
use crate::board::parse::{
    ws_len, skip_ws, token_end, field, has_field, parse_bounded, parse_number, next_field,
    lemma_field_bounds, lemma_skip_ws_stops, lemma_token_nonempty,
};
use crate::time_manager::Limits;
use crate::types::color::Color;
use crate::types::move_list::MoveEntry;
use crate::types::moves::Move;
use crate::types::piece::PieceType;
use crate::types::square::{Square, name_square, square_at, file_of, rank_of};
use crate::types::ascii_bytes;
use crate::types::moves::{uci_text, promotion_text};

verus! {

/// The commands the engine answers, and `Unknown` for any other word.
#[derive(Clone, Copy, PartialEq, Eq, Structural, Debug)]
pub enum UciCommand {
    Uci,
    IsReady,
    UciNewGame,
    Position,
    Go,
    SetOption,
    Stop,
    Quit,
    Display,
    Unknown,
}

/// The command a line's first word names.
pub open spec fn command_of_word(w: Seq<u8>) -> UciCommand {
    if w == seq![117u8, 99, 105] {
        UciCommand::Uci
    } else if w == seq![105u8, 115, 114, 101, 97, 100, 121] {
        UciCommand::IsReady
    } else if w == seq![117u8, 99, 105, 110, 101, 119, 103, 97, 109, 101] {
        UciCommand::UciNewGame
    } else if w == seq![112u8, 111, 115, 105, 116, 105, 111, 110] {
        UciCommand::Position
    } else if w == seq![103u8, 111] {
        UciCommand::Go
    } else if w == seq![115u8, 101, 116, 111, 112, 116, 105, 111, 110] {
        UciCommand::SetOption
    } else if w == seq![115u8, 116, 111, 112] {
        UciCommand::Stop
    } else if w == seq![113u8, 117, 105, 116] {
        UciCommand::Quit
    } else if w == seq![100u8] {
        UciCommand::Display
    } else {
        UciCommand::Unknown
    }
}

/// Splits a command line at its first space: the command its first word names, and where
/// that word ends (the arguments start one byte later, when the line goes on).
pub fn uci_command(line: &str) -> (r: (UciCommand, usize))
    ensures
        r.1 <= line.spec_bytes().len(),
        r.1 < line.spec_bytes().len() ==> line.spec_bytes()[r.1 as int] == 32,
        forall|i: int| 0 <= i < r.1 ==> line.spec_bytes()[i] != 32,
        r.0 == command_of_word(line.spec_bytes().subrange(0, r.1 as int)),
{
    let bytes = line.as_bytes();
    let mut k: usize = 0;
    while k < bytes.len() && bytes[k] != 32
        invariant
            k <= bytes@.len(),
            bytes@ == line.spec_bytes(),
            forall|i: int| 0 <= i < k ==> bytes@[i] != 32,
        decreases bytes@.len() - k,
    {
        k = k + 1;
    }
    let w_uci: [u8; 3] = [117, 99, 105];
    let w_isready: [u8; 7] = [105, 115, 114, 101, 97, 100, 121];
    let w_ucinewgame: [u8; 10] = [117, 99, 105, 110, 101, 119, 103, 97, 109, 101];
    let w_position: [u8; 8] = [112, 111, 115, 105, 116, 105, 111, 110];
    let w_go: [u8; 2] = [103, 111];
    let w_setoption: [u8; 9] = [115, 101, 116, 111, 112, 116, 105, 111, 110];
    let w_stop: [u8; 4] = [115, 116, 111, 112];
    let w_quit: [u8; 4] = [113, 117, 105, 116];
    let w_d: [u8; 1] = [100];
    assert(w_uci@ =~= seq![117u8, 99, 105]);
    assert(w_isready@ =~= seq![105u8, 115, 114, 101, 97, 100, 121]);
    assert(w_ucinewgame@ =~= seq![117u8, 99, 105, 110, 101, 119, 103, 97, 109, 101]);
    assert(w_position@ =~= seq![112u8, 111, 115, 105, 116, 105, 111, 110]);
    assert(w_go@ =~= seq![103u8, 111]);
    assert(w_setoption@ =~= seq![115u8, 101, 116, 111, 112, 116, 105, 111, 110]);
    assert(w_stop@ =~= seq![115u8, 116, 111, 112]);
    assert(w_quit@ =~= seq![113u8, 117, 105, 116]);
    assert(w_d@ =~= seq![100u8]);
    let cmd = if token_is(bytes, 0, k, &w_uci) {
        UciCommand::Uci
    } else if token_is(bytes, 0, k, &w_isready) {
        UciCommand::IsReady
    } else if token_is(bytes, 0, k, &w_ucinewgame) {
        UciCommand::UciNewGame
    } else if token_is(bytes, 0, k, &w_position) {
        UciCommand::Position
    } else if token_is(bytes, 0, k, &w_go) {
        UciCommand::Go
    } else if token_is(bytes, 0, k, &w_setoption) {
        UciCommand::SetOption
    } else if token_is(bytes, 0, k, &w_stop) {
        UciCommand::Stop
    } else if token_is(bytes, 0, k, &w_quit) {
        UciCommand::Quit
    } else if token_is(bytes, 0, k, &w_d) {
        UciCommand::Display
    } else {
        UciCommand::Unknown
    };
    (cmd, k)
}

/// `infinite`.
pub open spec fn word_infinite() -> Seq<u8> {
    seq![105u8, 110, 102, 105, 110, 105, 116, 101]
}

/// `depth`.
pub open spec fn word_depth() -> Seq<u8> {
    seq![100u8, 101, 112, 116, 104]
}

/// `movetime`.
pub open spec fn word_movetime() -> Seq<u8> {
    seq![109u8, 111, 118, 101, 116, 105, 109, 101]
}

/// `nodes`.
pub open spec fn word_nodes() -> Seq<u8> {
    seq![110u8, 111, 100, 101, 115]
}

/// `wtime`.
pub open spec fn word_wtime() -> Seq<u8> {
    seq![119u8, 116, 105, 109, 101]
}

/// `btime`.
pub open spec fn word_btime() -> Seq<u8> {
    seq![98u8, 116, 105, 109, 101]
}

/// `winc`.
pub open spec fn word_winc() -> Seq<u8> {
    seq![119u8, 105, 110, 99]
}

/// `binc`.
pub open spec fn word_binc() -> Seq<u8> {
    seq![98u8, 105, 110, 99]
}

/// `movestogo`.
pub open spec fn word_movestogo() -> Seq<u8> {
    seq![109u8, 111, 118, 101, 115, 116, 111, 103, 111]
}

/// The limits of a clock search once every pair is read: none given means no limit; with a
/// move count the time is divided over it, otherwise it is time plus increment.
pub open spec fn clock_limits(main: Option<u64>, inc: Option<u64>, moves: Option<u64>) -> Limits {
    if main is None && inc is None {
        Limits::Infinite
    } else {
        let m = match main {
            Some(v) => v,
            None => 0,
        };
        let i = match inc {
            Some(v) => v,
            None => 0,
        };
        match moves {
            Some(n) => Limits::Cyclic(m, i, n),
            None => Limits::Fischer(m, i),
        }
    }
}

/// Reads the `go` arguments as name and value pairs from byte `pos` on: a positive depth,
/// move time or node count decides at once; the side to move's time and increment and the
/// moves to go are kept; pairs whose value is not a number, and anything else, are skipped.
pub open spec fn scan_limits(
    s: Seq<u8>,
    pos: int,
    white: bool,
    main: Option<u64>,
    inc: Option<u64>,
    moves: Option<u64>,
) -> Limits
    decreases s.len() - pos,
{
    let a = skip_ws(s, pos);
    let b = token_end(s, a);
    let c = skip_ws(s, b);
    let d = token_end(s, c);
    if pos < 0 || pos > s.len() || a >= s.len() || c >= s.len() {
        clock_limits(main, inc, moves)
    } else {
        proof {
            lemma_field_bounds(s, pos);
            lemma_skip_ws_stops(s, pos);
            lemma_token_nonempty(s, a);
            lemma_field_bounds(s, a);
            lemma_field_bounds(s, b);
            lemma_skip_ws_stops(s, b);
            lemma_token_nonempty(s, c);
            lemma_field_bounds(s, c);
        }
        let name = s.subrange(a, b);
        match parse_bounded(s.subrange(c, d), u64::MAX as int) {
            None => scan_limits(s, d, white, main, inc, moves),
            Some(value) => {
                let v = value as u64;
                if name == word_depth() && v > 0 {
                    Limits::Depth(v as i32)
                } else if name == word_movetime() && v > 0 {
                    Limits::Time(v)
                } else if name == word_nodes() && v > 0 {
                    Limits::Nodes(v)
                } else if name == word_wtime() && white {
                    scan_limits(s, d, white, Some(v), inc, moves)
                } else if name == word_btime() && !white {
                    scan_limits(s, d, white, Some(v), inc, moves)
                } else if name == word_winc() && white {
                    scan_limits(s, d, white, main, Some(v), moves)
                } else if name == word_binc() && !white {
                    scan_limits(s, d, white, main, Some(v), moves)
                } else if name == word_movestogo() {
                    scan_limits(s, d, white, main, inc, Some(v))
                } else {
                    scan_limits(s, d, white, main, inc, moves)
                }
            },
        }
    }
}

/// The limits the arguments of a `go` command set for the side `white` or black: no limit
/// for the single word `infinite`, else the result of reading them in pairs.
pub open spec fn limits_spec(s: Seq<u8>, white: bool) -> Limits {
    if field(s, 0) == word_infinite() && !has_field(s, 1) {
        Limits::Infinite
    } else {
        scan_limits(s, 0, white, None, None, None)
    }
}

/// Whether `bytes[lo..hi]` spells `word`.
fn token_is(bytes: &[u8], lo: usize, hi: usize, word: &[u8]) -> (b: bool)
    requires
        lo <= hi <= bytes@.len(),
    ensures
        b == (bytes@.subrange(lo as int, hi as int) == word@),
{
    if hi - lo != word.len() {
        return false;
    }
    let mut i: usize = 0;
    while i < word.len()
        invariant
            lo <= hi <= bytes@.len(),
            hi - lo == word@.len(),
            i <= word@.len(),
            forall|j: int| 0 <= j < i ==> bytes@[lo + j] == word@[j],
        decreases word@.len() - i,
    {
        if bytes[lo + i] != word[i] {
            proof {
                assert(bytes@.subrange(lo as int, hi as int)[i as int] != word@[i as int]);
            }
            return false;
        }
        i = i + 1;
    }
    assert(bytes@.subrange(lo as int, hi as int) =~= word@);
    true
}

/// Reads the limits of a `go` command for the side `color` from its arguments.
pub fn parse_limits(color: Color, args: &str) -> (l: Limits)
    ensures
        l == limits_spec(args.spec_bytes(), color == Color::White),
{
    let bytes = args.as_bytes();
    let ghost s = bytes@;
    let white = color == Color::White;
    let infinite: [u8; 8] = [105, 110, 102, 105, 110, 105, 116, 101];
    let (a0, b0) = next_field(bytes, 0);
    let (a1, _b1) = next_field(bytes, b0);
    assert(infinite@ =~= word_infinite());
    assert(a0 == crate::board::parse::field_start(s, 0));
    assert(a1 == crate::board::parse::field_start(s, 1));
    if token_is(bytes, a0, b0, &infinite) && a1 >= bytes.len() {
        return Limits::Infinite;
    }
    assert(limits_spec(s, white) == scan_limits(s, 0, white, None, None, None));
    let depth: [u8; 5] = [100, 101, 112, 116, 104];
    let movetime: [u8; 8] = [109, 111, 118, 101, 116, 105, 109, 101];
    let nodes: [u8; 5] = [110, 111, 100, 101, 115];
    let wtime: [u8; 5] = [119, 116, 105, 109, 101];
    let btime: [u8; 5] = [98, 116, 105, 109, 101];
    let winc: [u8; 4] = [119, 105, 110, 99];
    let binc: [u8; 4] = [98, 105, 110, 99];
    let movestogo: [u8; 9] = [109, 111, 118, 101, 115, 116, 111, 103, 111];
    assert(depth@ =~= word_depth());
    assert(movetime@ =~= word_movetime());
    assert(nodes@ =~= word_nodes());
    assert(wtime@ =~= word_wtime());
    assert(btime@ =~= word_btime());
    assert(winc@ =~= word_winc());
    assert(binc@ =~= word_binc());
    assert(movestogo@ =~= word_movestogo());
    let mut main: Option<u64> = None;
    let mut inc: Option<u64> = None;
    let mut moves: Option<u64> = None;
    let mut pos: usize = 0;
    loop
        invariant
            pos <= bytes@.len(),
            s == bytes@,
            depth@ == word_depth(),
            movetime@ == word_movetime(),
            nodes@ == word_nodes(),
            wtime@ == word_wtime(),
            btime@ == word_btime(),
            winc@ == word_winc(),
            binc@ == word_binc(),
            movestogo@ == word_movestogo(),
            white == (color == Color::White),
            s == args.spec_bytes(),
            limits_spec(s, white) == scan_limits(s, 0, white, None, None, None),
            scan_limits(s, pos as int, white, main, inc, moves) == scan_limits(s, 0, white, None, None, None),
        decreases bytes@.len() - pos,
    {
        let (a, b) = next_field(bytes, pos);
        let (c, d) = next_field(bytes, b);
        if a >= bytes.len() || c >= bytes.len() {
            return if main.is_none() && inc.is_none() {
                Limits::Infinite
            } else {
                let m = match main {
                    Some(v) => v,
                    None => 0,
                };
                let i = match inc {
                    Some(v) => v,
                    None => 0,
                };
                match moves {
                    Some(n) => Limits::Cyclic(m, i, n),
                    None => Limits::Fischer(m, i),
                }
            };
        }
        proof {
            lemma_skip_ws_stops(s, pos as int);
            lemma_token_nonempty(s, a as int);
            lemma_skip_ws_stops(s, b as int);
            lemma_token_nonempty(s, c as int);
        }
        match parse_number(bytes, c, d, u64::MAX) {
            None => {},
            Some(v) => {
                if token_is(bytes, a, b, &depth) && v > 0 {
                    return Limits::Depth(v as i32);
                } else if token_is(bytes, a, b, &movetime) && v > 0 {
                    return Limits::Time(v);
                } else if token_is(bytes, a, b, &nodes) && v > 0 {
                    return Limits::Nodes(v);
                } else if token_is(bytes, a, b, &wtime) && white {
                    main = Some(v);
                } else if token_is(bytes, a, b, &btime) && !white {
                    main = Some(v);
                } else if token_is(bytes, a, b, &winc) && white {
                    inc = Some(v);
                } else if token_is(bytes, a, b, &binc) && !white {
                    inc = Some(v);
                } else if token_is(bytes, a, b, &movestogo) {
                    moves = Some(v);
                }
            },
        }
        pos = d;
    }
}

/// The promotion kind a letter after the squares of a move asks for (`q`, `r`, `b`, `n`).
pub open spec fn promotion_letter(b: u8) -> Option<int> {
    if b == 113 {
        Some(4)
    } else if b == 114 {
        Some(3)
    } else if b == 98 {
        Some(2)
    } else if b == 110 {
        Some(1)
    } else {
        None
    }
}

/// `mv` fits the move written in coordinate notation as `t`: origin, destination and, for a
/// promotion, the promotion letter.
pub open spec fn fits_text(mv: Move, t: Seq<u8>) -> bool {
    &&& t.len() >= 4
    &&& name_square(t.subrange(0, 2)) == Some(mv.from_idx())
    &&& name_square(t.subrange(2, 4)) == Some(mv.to_idx())
    &&& mv.spec_is_promotion() ==> t.len() > 4 && promotion_letter(t[4]) == Some(mv.spec_promotion_type())
}

/// The coordinate notation a move is printed in names that move: its origin, its destination
/// and, for a promotion, its promotion letter.
pub proof fn lemma_uci_text_fits(mv: Move)
    requires
        mv.well_formed(),
    ensures
        fits_text(mv, ascii_bytes(uci_text(mv))),
{
    let t = ascii_bytes(uci_text(mv));
    let f = mv.from_idx();
    let g = mv.to_idx();
    assert(0 <= f < 64 && 0 <= g < 64);
    assert(t.subrange(0, 2) =~= seq![(97 + file_of(f)) as u8, (49 + rank_of(f)) as u8]);
    assert(t.subrange(2, 4) =~= seq![(97 + file_of(g)) as u8, (49 + rank_of(g)) as u8]);
    assert(square_at(rank_of(f), file_of(f)) == f);
    assert(square_at(rank_of(g), file_of(g)) == g);
    if mv.spec_is_promotion() {
        let k = mv.spec_promotion_type();
        assert(1 <= k <= 4);
        assert(t[4] == (promotion_text(k)[0] as u8));
    }
}

/// The first legal move that the coordinate notation `uci` (`e2e4`, `e7e8q`) names, if any.
/// Text shorter than four bytes or naming no square names none.
pub fn parse_uci_move(board: &Board, uci: &str) -> (r: Option<MoveEntry>)
    requires
        board.wf(),
    ensures
        r matches Some(e) ==> fits_text(e.mv, uci.spec_bytes()) && board.gen_ok(e.mv) && (
        e.mv.spec_is_castling() || board.legal_spec(e.mv)),
        uci.spec_bytes().len() < 4 ==> r is None,
        uci.spec_bytes().len() >= 4 && (name_square(uci.spec_bytes().subrange(0, 2)) is None
            || name_square(uci.spec_bytes().subrange(2, 4)) is None) ==> r is None,
        board.gen_ready() && board.kings_present() && names_owed_move(*board, uci.spec_bytes()) ==> r is Some,
        r matches Some(e) ==> board.gen_ready() && the_named_move(*board, e.mv, uci.spec_bytes()),
{
    find_uci_move(board, uci.as_bytes())
}

/// The flag code `code` agrees with the coordinate notation `t`: no promotion, or the
/// promotion its fifth letter names.
pub open spec fn code_fits(code: int, t: Seq<u8>) -> bool {
    code < 8 || (t.len() > 4 && promotion_letter(t[4]) == Some(code % 4 + 1))
}

/// The coordinate notation `t` names a move that generating all moves on `b` owes.
pub open spec fn names_owed_move(b: Board, t: Seq<u8>) -> bool {
    exists|f: int, g: int, code: int|
        t.len() >= 4 && name_square(t.subrange(0, 2)) == Some(f) && name_square(t.subrange(2, 4)) == Some(g)
            && code_fits(code, t) && #[trigger] owed(b, f, g, code)
}

/// No king stands on the destination that the coordinate notation `t` names, nor on the
/// square behind it that an en passant capture there would empty.
pub open spec fn lands_off_kings(b: Board, t: Seq<u8>) -> bool {
    forall|g: int|
        t.len() >= 4 && #[trigger] name_square(t.subrange(2, 4)) == Some(g) ==> b.squares()[g].type_idx() != 5 && (0
            <= ep_victim(g, b.stm()) < 64 ==> b.squares()[ep_victim(g, b.stm())].type_idx() != 5)
}

/// The promotion letter of the coordinate notation `t`, if it has one.
pub open spec fn text_letter(t: Seq<u8>) -> Option<int> {
    if t.len() > 4 {
        promotion_letter(t[4])
    } else {
        None
    }
}

/// `mv` is the move generating all moves owes that the coordinate notation `t` names: no other
/// owed move with the same squares fits the text (castling starting from a king).
pub open spec fn the_named_move(b: Board, mv: Move, t: Seq<u8>) -> bool {
    &&& owed(b, mv.from_idx(), mv.to_idx(), mv.code())
    &&& code_fits(mv.code(), t)
    &&& castles_from_king(b) ==> forall|c: int|
        #[trigger] owed(b, mv.from_idx(), mv.to_idx(), c) && code_fits(c, t) ==> c == mv.code()
}

/// The first legal move that the coordinate notation in `bytes` names, if any; see
/// `parse_uci_move`.
pub fn find_uci_move(board: &Board, bytes: &[u8]) -> (r: Option<MoveEntry>)
    requires
        board.wf(),
    ensures
        r matches Some(e) ==> fits_text(e.mv, bytes@) && board.gen_ok(e.mv) && (
        e.mv.spec_is_castling() || board.legal_spec(e.mv)),
        bytes@.len() < 4 ==> r is None,
        bytes@.len() >= 4 && (name_square(bytes@.subrange(0, 2)) is None
            || name_square(bytes@.subrange(2, 4)) is None) ==> r is None,
        board.gen_ready() && board.kings_present() && names_owed_move(*board, bytes@) ==> r is Some,
        r matches Some(e) ==> board.gen_ready() && the_named_move(*board, e.mv, bytes@),
{
    if bytes.len() < 4 {
        return None;
    }
    let from = match Square::from_name_in(bytes, 0, 2) {
        Some(sq) => sq,
        None => {
            return None;
        },
    };
    let to = match Square::from_name_in(bytes, 2, 4) {
        Some(sq) => sq,
        None => {
            return None;
        },
    };
    let promo: Option<PieceType> = if bytes.len() > 4 {
        let b = bytes[4];
        if b == 113 {
            Some(PieceType::Queen)
        } else if b == 114 {
            Some(PieceType::Rook)
        } else if b == 98 {
            Some(PieceType::Bishop)
        } else if b == 110 {
            Some(PieceType::Knight)
        } else {
            None
        }
    } else {
        None
    };
    if !board.ready_to_generate() {
        return None;
    }
    let legal = board.generate_all_legal_moves(false);
    let mut i: usize = 0;
    while i < legal.len()
        invariant
            i <= legal@.len(),
            board.all_gen_ok(legal@),
            board.all_legal(legal@),
            all_owed(*board, false, legal@),
            board.gen_ready(),
            bytes@.len() >= 4,
            name_square(bytes@.subrange(0, 2)) == Some(from.0 as int),
            name_square(bytes@.subrange(2, 4)) == Some(to.0 as int),
            bytes@.len() > 4 ==> promo == match promotion_letter(bytes@[4]) {
                Some(k) => Some(crate::types::piece::type_of_index(k)),
                None => None,
            },
            bytes@.len() <= 4 ==> promo is None,
            forall|j: int|
                0 <= j < i ==> !(#[trigger] legal@[j].mv.from_idx() == from.0 && legal@[j].mv.to_idx() == to.0
                    && code_fits(legal@[j].mv.code(), bytes@)),
        decreases legal@.len() - i,
    {
        let entry = legal.get(i);
        let mv = entry.mv();
        assert(board.gen_ok(legal@[i as int].mv));
        proof {
            assert(owed_co(*board, false, legal@[i as int].mv));
            if castles_from_king(*board) {
                assert forall|c: int|
                    #[trigger] owed(*board, mv.from_idx(), mv.to_idx(), c) && code_fits(c, bytes@) && code_fits(
                        mv.code(),
                        bytes@,
                    ) implies c == mv.code() by {
                    lemma_owed_code_unique(*board, mv.from_idx(), mv.to_idx(), mv.code(), c, text_letter(bytes@));
                }
            }
        }
        if mv.from().0 == from.0 && mv.to().0 == to.0 {
            if !mv.is_promotion() {
                return Some(entry);
            }
            let kind = mv.promotion_piece_type();
            let wanted = match promo {
                Some(p) => p == kind,
                None => false,
            };
            if wanted {
                return Some(entry);
            }
        }
        i = i + 1;
    }
    proof {
        if names_owed_move(*board, bytes@) {
            let (f, g, code) = choose|f: int, g: int, code: int|
                bytes@.len() >= 4 && name_square(bytes@.subrange(0, 2)) == Some(f) && name_square(bytes@.subrange(2, 4))
                    == Some(g) && code_fits(code, bytes@) && #[trigger] owed(*board, f, g, code);
            lemma_owed_listed(*board, legal@, f, g, code);
            let j = choose|j: int|
                #![trigger legal@[j]]
                0 <= j < legal@.len() && legal@[j].mv.from_idx() == f && legal@[j].mv.to_idx() == g && legal@[j].mv.code()
                    == code;
            assert(legal@[j].mv.from_idx() == from.0);
        }
    }
    None
}

/// Plays the legal move that the coordinate notation `uci` names, if there is one and it
/// can be played here; says whether it did.
pub fn play_uci_move(board: &mut Board, uci: &str) -> (played: bool)
    requires
        old(board).wf(),
        old(board).material_ok(),
    ensures
        final(board).wf(),
        final(board).material_ok(),
        !played ==> final(board).same_board(*old(board)),
        played ==> exists|mv: Move|
            fits_text(mv, uci.spec_bytes()) && (mv.spec_is_castling() || old(board).legal_spec(mv))
                && the_named_move(*old(board), mv, uci.spec_bytes())
                && #[trigger] old(board).made(mv, *final(board)),
        old(board).gen_ready() && old(board).kings_present() && old(board).half_move_number < usize::MAX
            && names_owed_move(*old(board), uci.spec_bytes()) && lands_off_kings(*old(board), uci.spec_bytes()) ==> played,
{
    play_uci_bytes(board, uci.as_bytes())
}

/// Plays the legal move that the coordinate notation in `bytes` names; see `play_uci_move`.
pub fn play_uci_bytes(board: &mut Board, bytes: &[u8]) -> (played: bool)
    requires
        old(board).wf(),
        old(board).material_ok(),
    ensures
        final(board).wf(),
        final(board).material_ok(),
        !played ==> final(board).same_board(*old(board)),
        played ==> exists|mv: Move|
            fits_text(mv, bytes@) && (mv.spec_is_castling() || old(board).legal_spec(mv))
                && the_named_move(*old(board), mv, bytes@) && #[trigger] old(
                board,
            ).made(mv, *final(board)),
        old(board).gen_ready() && old(board).kings_present() && old(board).half_move_number < usize::MAX
            && names_owed_move(*old(board), bytes@) && lands_off_kings(*old(board), bytes@) ==> played,
{
    match find_uci_move(board, bytes) {
        Some(entry) => {
            let mv = entry.mv();
            if board.both_kings_present() && board.can_play(mv) {
                board.make_move(mv);
                true
            } else {
                false
            }
        },
        None => false,
    }
}

} // verus!
