use vstd::prelude::*;
use vstd::string::StringSliceAdditionalSpecFns;
use crate::board::Board;
use crate::board::parse::{
    FenError, STARTPOS, fen_board, fen_error, ws_len, skip_ws, token_end, next_field, ws_at,
    lemma_field_bounds, lemma_skip_ws_stops, lemma_token_nonempty,
};
use crate::types::moves::Move;
use crate::uci::{fits_text, play_uci_bytes, the_named_move, names_owed_move, lands_off_kings};

verus! {

// ---------------------------------------------------------------------------------------------
// Reading the command
// ---------------------------------------------------------------------------------------------

/// `moves`.
pub open spec fn word_moves() -> Seq<u8> {
    seq![109u8, 111, 118, 101, 115]
}

/// `startpos`.
pub open spec fn word_startpos() -> Seq<u8> {
    seq![115u8, 116, 97, 114, 116, 112, 111, 115]
}

/// `fen` and a space.
pub open spec fn word_fen() -> Seq<u8> {
    seq![102u8, 101, 110, 32]
}

/// Where `w` first occurs in `s` at or after `i`.
pub open spec fn find_from(s: Seq<u8>, w: Seq<u8>, i: int) -> Option<int>
    decreases s.len() + 1 - i,
{
    if i < 0 || i + w.len() > s.len() {
        None
    } else if s.subrange(i, i + w.len()) == w {
        Some(i)
    } else {
        find_from(s, w, i + 1)
    }
}

/// The length of the white-space character that ends just before `e`, 0 if none does.
pub open spec fn ws_before(t: Seq<u8>, e: int) -> int {
    if e >= 1 && ws_len(t, e - 1) == 1 {
        1
    } else if e >= 2 && ws_len(t, e - 2) == 2 {
        2
    } else if e >= 3 && ws_len(t, e - 3) == 3 {
        3
    } else {
        0
    }
}

/// Where `t[..e]` ends once the white space at its end is taken off.
pub open spec fn trim_end(t: Seq<u8>, e: int) -> int
    decreases e,
{
    if e <= 0 {
        0
    } else if ws_before(t, e) > 0 {
        trim_end(t, e - ws_before(t, e))
    } else {
        e
    }
}

/// `t` without the white space at its start and at its end.
pub open spec fn trimmed(t: Seq<u8>) -> Seq<u8> {
    let a = skip_ws(t, 0);
    let b = trim_end(t, t.len() as int);
    if a < b {
        t.subrange(a, b)
    } else {
        Seq::empty()
    }
}

/// Where the word `moves` first occurs in the command.
pub open spec fn moves_at(s: Seq<u8>) -> Option<int> {
    find_from(s, word_moves(), 0)
}

/// The part of the command that names the position: what comes before `moves`, trimmed.
pub open spec fn position_part(s: Seq<u8>) -> Seq<u8> {
    trimmed(
        s.subrange(
            0,
            match moves_at(s) {
                Some(i) => i,
                None => s.len() as int,
            },
        ),
    )
}

/// The FEN string the command gives, trimmed: what follows `fen ` in the position part.
pub open spec fn fen_text(s: Seq<u8>) -> Option<Seq<u8>> {
    let p = position_part(s);
    if p != word_startpos() && p.len() >= 4 && p.subrange(0, 4) == word_fen() {
        Some(trimmed(p.subrange(4, p.len() as int)))
    } else {
        None
    }
}

/// What follows `moves`; nothing when the command has no `moves`.
pub open spec fn moves_text(s: Seq<u8>) -> Seq<u8> {
    match moves_at(s) {
        Some(i) => s.subrange(i + 5, s.len() as int),
        None => Seq::empty(),
    }
}

/// The white-space separated words of `m` from `i` on.
pub open spec fn words_from(m: Seq<u8>, i: int) -> Seq<Seq<u8>>
    decreases m.len() - i,
    via words_from_decreases
{
    if i < 0 || i > m.len() || skip_ws(m, i) >= m.len() {
        Seq::empty()
    } else {
        let a = skip_ws(m, i);
        seq![m.subrange(a, token_end(m, a))] + words_from(m, token_end(m, a))
    }
}

/// Each word ends past where the search for it started.
#[via_fn]
proof fn words_from_decreases(m: Seq<u8>, i: int) {
    if !(i < 0 || i > m.len() || skip_ws(m, i) >= m.len()) {
        lemma_field_bounds(m, i);
        lemma_skip_ws_stops(m, i);
        lemma_token_nonempty(m, skip_ws(m, i));
        lemma_field_bounds(m, skip_ws(m, i));
    }
}

/// The moves the command lists, one word each.
pub open spec fn move_words(s: Seq<u8>) -> Seq<Seq<u8>> {
    words_from(moves_text(s), 0)
}

// ---------------------------------------------------------------------------------------------
// What setting the position does
// ---------------------------------------------------------------------------------------------

/// Something in a `position` command that could not be followed.
#[derive(Debug)]
pub enum PositionIssue {
    /// The FEN string was refused; the board was left as it was.
    BadFen(FenError),
    /// The word names no move that can be played here; it was passed over.
    BadMove(Vec<u8>),
}

/// The board the command starts from: the starting position for `startpos`, the position of
/// an accepted FEN string, and otherwise the board as it was.
pub open spec fn start_ok(before: Board, s: Seq<u8>, start: Board) -> bool {
    if position_part(s) == word_startpos() {
        &&& start.wf()
        &&& start.material_ok()
        &&& fen_error(STARTPOS.spec_bytes()) is None ==> fen_board(STARTPOS.spec_bytes(), start)
    } else {
        match fen_text(s) {
            Some(f) => match fen_error(f) {
                None => fen_board(f, start),
                Some(_) => start == before,
            },
            None => start == before,
        }
    }
}

/// One word of the move list: played as the legal move it names, or passed over.
pub open spec fn step_ok(b0: Board, word: Seq<u8>, played: bool, b1: Board) -> bool {
    if played {
        exists|mv: Move|
            fits_text(mv, word) && (mv.spec_is_castling() || b0.legal_spec(mv)) && the_named_move(b0, mv, word)
                && #[trigger] b0.made(mv, b1)
    } else {
        &&& b1.same_board(b0)
        &&& !(b0.gen_ready() && b0.kings_present() && b0.half_move_number < usize::MAX && names_owed_move(b0, word)
            && lands_off_kings(b0, word))
    }
}

/// The boards the move list goes through, one step per word.
pub open spec fn replayed(words: Seq<Seq<u8>>, played: Seq<bool>, trace: Seq<Board>) -> bool {
    &&& trace.len() == words.len() + 1
    &&& played.len() == words.len()
    &&& forall|k: int|
        0 <= k < words.len() ==> #[trigger] step_ok(trace[k], words[k], played[k], trace[k + 1])
}

/// The words among the first `n` that were passed over, in order.
pub open spec fn passed_over(words: Seq<Seq<u8>>, played: Seq<bool>, n: int) -> Seq<Seq<u8>>
    decreases n,
{
    if n <= 0 {
        Seq::empty()
    } else if played[n - 1] {
        passed_over(words, played, n - 1)
    } else {
        passed_over(words, played, n - 1).push(words[n - 1])
    }
}

/// The FEN error the command meets, if it gives a FEN string that is refused.
pub open spec fn start_error(s: Seq<u8>) -> Option<FenError> {
    if position_part(s) == word_startpos() {
        None
    } else {
        match fen_text(s) {
            Some(f) => fen_error(f),
            None => None,
        }
    }
}

/// The issues reported: the refused FEN string first, then each word passed over.
pub open spec fn issues_ok(issues: Seq<PositionIssue>, err: Option<FenError>, bad: Seq<Seq<u8>>) -> bool {
    let k: int = if err is Some {
        1
    } else {
        0
    };
    &&& issues.len() == k + bad.len()
    &&& err matches Some(e) ==> issues[0] == PositionIssue::BadFen(e)
    &&& forall|j: int|
        k <= j < issues.len() ==> (#[trigger] issues[j] matches PositionIssue::BadMove(v) && v@
            == bad[j - k])
}

/// What a `position` command did: the board it started from, the boards its moves went
/// through, and the issues it reported.
pub open spec fn position_set(
    before: Board,
    s: Seq<u8>,
    trace: Seq<Board>,
    played: Seq<bool>,
    after: Board,
    issues: Seq<PositionIssue>,
) -> bool {
    let words = move_words(s);
    &&& start_ok(before, s, trace[0])
    &&& replayed(words, played, trace)
    &&& after == trace.last()
    &&& issues_ok(issues, start_error(s), passed_over(words, played, words.len() as int))
}

/// Words passed over among the first `n` depend only on the first `n` play flags.
proof fn lemma_passed_over_prefix(words: Seq<Seq<u8>>, p: Seq<bool>, q: Seq<bool>, n: int)
    requires
        0 <= n <= p.len(),
        n <= q.len(),
        forall|k: int| 0 <= k < n ==> p[k] == q[k],
    ensures
        passed_over(words, p, n) == passed_over(words, q, n),
    decreases n,
{
    if n > 0 {
        lemma_passed_over_prefix(words, p, q, n - 1);
    }
}

// ---------------------------------------------------------------------------------------------
// Doing it
// ---------------------------------------------------------------------------------------------

/// A copy of `bytes[lo..hi]`.
pub(crate) fn copy_range(bytes: &[u8], lo: usize, hi: usize) -> (v: Vec<u8>)
    requires
        lo <= hi <= bytes@.len(),
    ensures
        v@ == bytes@.subrange(lo as int, hi as int),
{
    let mut v: Vec<u8> = Vec::new();
    let mut i = lo;
    while i < hi
        invariant
            lo <= i <= hi <= bytes@.len(),
            v@ == bytes@.subrange(lo as int, i as int),
        decreases hi - i,
    {
        v.push(bytes[i]);
        assert(v@ =~= bytes@.subrange(lo as int, i + 1));
        i = i + 1;
    }
    v
}

/// A match found from `j` on lies from `j` on and within `s`.
pub proof fn lemma_find_bounds(s: Seq<u8>, w: Seq<u8>, j: int)
    ensures
        find_from(s, w, j) matches Some(i) ==> j <= i && i + w.len() <= s.len(),
    decreases s.len() + 1 - j,
{
    if !(j < 0 || j + w.len() > s.len()) && s.subrange(j, j + w.len()) != w {
        lemma_find_bounds(s, w, j + 1);
    }
}

/// Where `word` first occurs in `bytes`.
pub(crate) fn find_word(bytes: &[u8], word: &[u8]) -> (r: Option<usize>)
    requires
        word@.len() > 0,
    ensures
        r == match find_from(bytes@, word@, 0) {
            Some(i) => Some(i as usize),
            None => None::<usize>,
        },
        r matches Some(i) ==> i + word@.len() <= bytes@.len(),
{
    let ghost s = bytes@;
    let ghost w = word@;
    proof {
        lemma_find_bounds(s, w, 0);
    }
    if word.len() > bytes.len() {
        return None;
    }
    let mut i: usize = 0;
    while i <= bytes.len() - word.len()
        invariant
            word@.len() <= bytes@.len(),
            i + word@.len() <= bytes@.len() + 1,
            s == bytes@,
            w == word@,
            w.len() > 0,
            find_from(s, w, 0) == find_from(s, w, i as int),
        decreases bytes@.len() + 1 - i,
    {
        if crate::uci::token_is(bytes, i, i + word.len(), word) {
            return Some(i);
        }
        i = i + 1;
    }
    None
}

/// Where the white space at the start and at the end of `bytes` ends and begins.
fn trim_bounds(bytes: &[u8]) -> (r: (usize, usize))
    ensures
        r.0 == skip_ws(bytes@, 0),
        r.1 == trim_end(bytes@, bytes@.len() as int),
        r.0 <= bytes@.len(),
        r.1 <= bytes@.len(),
{
    let ghost t = bytes@;
    let (a, _) = next_field(bytes, 0);
    let mut e = bytes.len();
    while e > 0
        invariant
            e <= t.len(),
            t == bytes@,
            trim_end(t, e as int) == trim_end(t, t.len() as int),
        ensures
            e == trim_end(t, t.len() as int),
        decreases e,
    {
        let k: usize = if ws_at(bytes, e - 1) == 1 {
            1
        } else if e >= 2 && ws_at(bytes, e - 2) == 2 {
            2
        } else if e >= 3 && ws_at(bytes, e - 3) == 3 {
            3
        } else {
            0
        };
        assert(k == ws_before(t, e as int));
        if k == 0 {
            break;
        }
        e = e - k;
    }
    (a, e)
}

/// `bytes` without the white space at its start and at its end.
pub(crate) fn trim_copy(bytes: &[u8]) -> (v: Vec<u8>)
    ensures
        v@ == trimmed(bytes@),
{
    let (a, b) = trim_bounds(bytes);
    if a < b {
        copy_range(bytes, a, b)
    } else {
        Vec::new()
    }
}

/// Sets up the position of a `position` command's arguments: `startpos` or `fen` and a FEN
/// string, then optionally `moves` and moves in coordinate notation, played in turn. A refused
/// FEN string leaves the board as it was, and a word that names no move that can be played is
/// passed over; both are reported, in order.
pub fn handle_position(board: &mut Board, rest: &str) -> (issues: Vec<PositionIssue>)
    requires
        old(board).wf(),
        old(board).material_ok(),
    ensures
        final(board).wf(),
        final(board).material_ok(),
        exists|trace: Seq<Board>, played: Seq<bool>|
            #[trigger] position_set(*old(board), rest.spec_bytes(), trace, played, *final(board), issues@),
{
    let bytes = rest.as_bytes();
    let ghost s = bytes@;
    let ghost before = *board;
    let moves_word: [u8; 5] = [109, 111, 118, 101, 115];
    assert(moves_word@ =~= word_moves());
    let at = find_word(bytes, &moves_word);
    proof {
        lemma_find_bounds(s, word_moves(), 0);
    }
    assert(moves_word@ == word_moves());
    assert(at == match moves_at(s) {
        Some(i) => Some(i as usize),
        None => None::<usize>,
    });
    let cut = match at {
        Some(i) => i,
        None => bytes.len(),
    };
    proof {
        match moves_at(s) {
            Some(i) => {
                assert(0 <= i);
                assert(i + 5 <= s.len());
                assert(s.len() == bytes.len());
                assert(at == Some(i as usize));
                assert(cut == i);
            },
            None => {
                assert(cut == s.len());
            },
        }
    }
    let head = copy_range(bytes, 0, cut);
    let pos = trim_copy(&head);
    assert(pos@ == position_part(s));
    let mut issues: Vec<PositionIssue> = Vec::new();
    let startpos_word: [u8; 8] = [115, 116, 97, 114, 116, 112, 111, 115];
    let fen_word: [u8; 4] = [102, 101, 110, 32];
    assert(startpos_word@ =~= word_startpos());
    assert(fen_word@ =~= word_fen());
    if crate::uci::token_is(&pos, 0, pos.len(), &startpos_word) {
        assert(pos@.subrange(0, pos@.len() as int) =~= pos@);
        *board = Board::startpos();
    } else {
        assert(pos@.subrange(0, pos@.len() as int) =~= pos@);
        if pos.len() >= 4 && crate::uci::token_is(&pos, 0, 4, &fen_word) {
            let rest_of = copy_range(&pos, 4, pos.len());
            let fen = trim_copy(&rest_of);
            assert(fen_text(s) == Some(fen@));
            match Board::parse_fen_bytes(&fen) {
                Ok(b) => {
                    *board = b;
                },
                Err(e) => {
                    issues.push(PositionIssue::BadFen(e));
                },
            }
        } else {
            assert(fen_text(s) is None);
        }
    }
    let ghost start = *board;
    assert(start_ok(before, s, start));
    assert(issues@.len() == (if start_error(s) is Some { 1int } else { 0int }));
    let list = match at {
        Some(i) => copy_range(bytes, i + 5, bytes.len()),
        None => Vec::new(),
    };
    assert(list@ =~= moves_text(s));
    let ghost m = list@;
    let ghost words = move_words(s);
    let ghost k0: int = issues@.len() as int;
    let ghost mut trace: Seq<Board> = seq![start];
    let ghost mut played: Seq<bool> = Seq::empty();
    let mut pos_in: usize = 0;
    proof {
        assert(words_from(m, 0) =~= words.subrange(0, 0) + words_from(m, 0));
        assert(passed_over(words, played, 0) =~= Seq::<Seq<u8>>::empty());
    }
    loop
        invariant
            m == list@,
            pos_in <= m.len(),
            board.wf(),
            board.material_ok(),
            words == move_words(s),
            words == words_from(m, 0),
            words_from(m, 0) == words.subrange(0, played.len() as int) + words_from(m, pos_in as int),
            played.len() <= words.len(),
            trace.len() == played.len() + 1,
            trace[0] == start,
            *board == trace.last(),
            start_ok(before, s, start),
            forall|k: int|
                0 <= k < played.len() ==> #[trigger] step_ok(trace[k], words[k], played[k], trace[k + 1]),
            k0 == (if start_error(s) is Some { 1int } else { 0int }),
            issues_ok(issues@, start_error(s), passed_over(words, played, played.len() as int)),
        ensures
            played.len() == words.len(),
        decreases m.len() - pos_in,
    {
        let (a, b) = next_field(&list, pos_in);
        if a >= list.len() {
            proof {
                assert(words_from(m, pos_in as int) =~= Seq::<Seq<u8>>::empty());
                assert(words =~= words.subrange(0, played.len() as int));
            }
            break;
        }
        proof {
            lemma_skip_ws_stops(m, pos_in as int);
            lemma_token_nonempty(m, a as int);
        }
        let word = copy_range(&list, a, b);
        let ghost n = played.len() as int;
        let ghost b0 = *board;
        let ghost old_issues = issues@;
        let ghost old_played = played;
        let ghost old_trace = trace;
        proof {
            assert(words_from(m, pos_in as int) == seq![word@] + words_from(m, b as int));
            assert(words_from(m, 0) =~= words.subrange(0, n) + (seq![word@] + words_from(m, b as int)));
            assert(n < words.len()) by {
                assert(words_from(m, 0).len() == words.len());
            }
            assert(words_from(m, 0)[n] == word@);
            assert(words[n] == word@);
            assert(words_from(m, 0) =~= words.subrange(0, n + 1) + words_from(m, b as int));
        }
        let done = play_uci_bytes(board, &word);
        let ghost wv = word@;
        if !done {
            issues.push(PositionIssue::BadMove(word));
            assert(issues@[issues@.len() - 1] matches PositionIssue::BadMove(v) && v@ == wv);
        }
        proof {
            trace = trace.push(*board);
            played = played.push(done);
            assert(trace[n] == b0);
            assert(step_ok(trace[n], words[n], played[n], trace[n + 1]));
            assert forall|k: int| 0 <= k < played.len() implies #[trigger] step_ok(
                trace[k],
                words[k],
                played[k],
                trace[k + 1],
            ) by {
                if k < n {
                    assert(trace[k] == old_trace[k]);
                    assert(trace[k + 1] == old_trace[k + 1]);
                    assert(played[k] == old_played[k]);
                }
            }
            assert(passed_over(words, played, n) == passed_over(words, old_played, n)) by {
                lemma_passed_over_prefix(words, old_played, played, n);
            }
            let bad = passed_over(words, played, n + 1);
            let old_bad = passed_over(words, old_played, n);
            assert(played[n] == done);
            assert(bad == if done { old_bad } else { old_bad.push(words[n]) });
            assert(old_issues.len() == k0 + old_bad.len());
            assert forall|j: int| k0 <= j < issues@.len() implies (#[trigger] issues@[j] matches PositionIssue::BadMove(v) && v@ == bad[j - k0]) by {
                if j < old_issues.len() {
                    assert(bad[j - k0] == old_bad[j - k0]);
                    assert(issues@[j] == old_issues[j]);
                } else {
                    assert(!done);
                    assert(bad[j - k0] == words[n]);
                }
            }
        }
        pos_in = b;
    }
    proof {
        assert(position_set(before, s, trace, played, *board, issues@));
    }
    issues
}

} // verus!
