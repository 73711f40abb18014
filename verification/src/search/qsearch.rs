use vstd::prelude::*;
use crate::board::Board;
use crate::board::generate_moves::{
    in_check_spec, no_owed_move, lemma_no_owed_empty, triples, owed_set_co, lemma_list_enumerates,
    lemma_swap_keeps_triples,
};
use crate::board::make_move::{lemma_undo_applicable, lemma_make_undo_roundtrip, lemma_same_board_moves};
use crate::search::move_ordering::{OrderedMoves, CAPTURE_VALUE, order_score, first_best};
use crate::search::search_types::SearchData;
use crate::search::{NodeType, NonPV};
use crate::types::move_list::{MoveEntry, MoveList};
use crate::types::moves::Move;
use crate::types::score::Score;

verus! {

/// A capture that cannot bring the score this close to alpha is not tried.
pub const DELTA_MARGIN: i32 = 200;

/// Every score a search returns, and every bound it is given, lies within this distance of 0.
pub const SCORE_LIMIT: i32 = 500000;

/// The deepest ply, as a score-sized integer.
pub const MAX_PLY_I32: i32 = 256;

/// A score the searches pass up at once, as they do the stop signal: `Score::NONE` or more
/// away from 0.
pub open spec fn stop_like(s: int) -> bool {
    s >= Score::NONE || s <= -Score::NONE
}

/// The best of `start` and the negated child scores in `crs`, skipping the entries that were
/// not searched (`None`).
pub open spec fn q_fold(start: int, crs: Seq<Option<int>>) -> int
    decreases crs.len(),
{
    if crs.len() == 0 {
        start
    } else {
        let prev = q_fold(start, crs.drop_last());
        match crs.last() {
            Some(v) => if -v > prev {
                -v
            } else {
                prev
            },
            None => prev,
        }
    }
}

/// Quiescence passes over the entry `e`: out of check, a capture that loses material by
/// exchange, or one whose captured piece cannot lift `stand` to within the margin of `lower`;
/// and any move that cannot be played.
pub open spec fn q_skip(b: Board, e: MoveEntry, stand: int, lower: int, in_check: bool) -> bool {
    let captured = b.squares()[e.mv.to_idx()].spec_value();
    let gain = if captured < 0 {
        -captured
    } else {
        captured
    };
    ||| !in_check && e.ordering_score - CAPTURE_VALUE < 0
    ||| !in_check && stand + gain + DELTA_MARGIN < lower
    ||| !b.move_ok(e.mv)
}

/// The searched entry with child result `cr` ends the loop: its negated score is a stop
/// signal, or the bound `lower_after` reached `beta`.
pub open spec fn q_ends(cr: Option<int>, lower_after: int, beta: int) -> bool {
    match cr {
        Some(v) => stop_like(-v) || lower_after >= beta,
        None => false,
    }
}

/// The stand-pat score: mated at `ply` when in check, the evaluation otherwise.
pub open spec fn q_stand(b: Board, ply: int) -> int {
    if in_check_spec(b) {
        ply - Score::MATE
    } else {
        b.material_eval()
    }
}

/// The bound the loop starts from: the evaluation when it raises `alpha` out of check.
pub open spec fn q_lower0(b: Board, alpha: int, ply: int) -> int {
    if !in_check_spec(b) && q_stand(b, ply) > alpha {
        q_stand(b, ply)
    } else {
        alpha
    }
}

/// `v` is a result of searching `mv` from `b`: of quiescence search of the position after it,
/// one ply deeper, with the window (-`beta`, -`lower`); `stopped` allows a stop below.
pub open spec fn q_child(b: Board, beta: int, ply: int, lower: int, mv: Move, v: int, stopped: bool) -> bool
    decreases MAX_PLY_I32 - ply, 0int,
{
    if ply < MAX_PLY_I32 {
        exists|c: Board|
            #[trigger] b.made(mv, c) && (q_value(c, -beta, -lower, ply + 1, v, false) || (stopped && q_value(
                c,
                -beta,
                -lower,
                ply + 1,
                v,
                true,
            )))
    } else {
        false
    }
}

/// `r` is a result of quiescence search of `b` with window (`alpha`, `beta`) at `ply`;
/// `stopped` allows a stop signal at this node or below it. Out of a cut-off or draw, a stop
/// gives `Score::NONE`; a position that cannot be searched gives its evaluation; out of check
/// the evaluation stands when it reaches `beta` and raises `alpha`; at the deepest ply the
/// stand-pat score (mated when in check) is returned; otherwise the loop `q_run` decides.
pub open spec fn q_value(b: Board, alpha: int, beta: int, ply: int, r: int, stopped: bool) -> bool
    decreases MAX_PLY_I32 - ply, 2int,
{
    if alpha >= beta {
        r == alpha
    } else if b.draw_spec() {
        r == 0
    } else if stopped && r == Score::NONE {
        true
    } else if !(b.gen_ready() && b.kings_present()) {
        r == b.material_eval()
    } else if !in_check_spec(b) && q_stand(b, ply) >= beta {
        r == q_stand(b, ply)
    } else if ply >= MAX_PLY_I32 {
        r == q_stand(b, ply)
    } else {
        exists|ps: Seq<MoveEntry>, crs: Seq<Option<int>>|
            #![trigger triples(ps), crs.len()]
            q_run(b, beta, ply, in_check_spec(b), q_stand(b, ply), q_lower0(b, alpha, ply), ps, crs, r, stopped)
    }
}

/// The loop of quiescence search over the entries `ps` (the captures, or every move when in
/// check, each once, scored for ordering), of which the first `crs.len()` were taken in turn,
/// each a best-scored one of those left: `None` for an entry passed over (`q_skip` against the
/// bound so far), otherwise the child's result with the window (-`beta`, -bound). The loop
/// ends at a stop signal (which is returned), when the bound reaches `beta`, or when every
/// entry was taken; the best of `stand` and the scores found is returned.
pub open spec fn q_run(
    b: Board,
    beta: int,
    ply: int,
    ic: bool,
    stand: int,
    lower0: int,
    ps: Seq<MoveEntry>,
    crs: Seq<Option<int>>,
    r: int,
    stopped: bool,
) -> bool
    decreases MAX_PLY_I32 - ply, 1int,
{
    if ply < MAX_PLY_I32 {
        &&& triples(ps).no_duplicates()
        &&& triples(ps).to_set() == owed_set_co(b, !ic)
        &&& forall|i: int| 0 <= i < ps.len() ==> (#[trigger] ps[i]).ordering_score == order_score(b, ps[i].mv, Move(0))
        &&& crs.len() <= ps.len()
        &&& forall|i: int, j: int|
            #![trigger ps[i], ps[j]]
            0 <= i < crs.len() && i < j < ps.len() ==> ps[i].ordering_score >= ps[j].ordering_score
        &&& forall|i: int|
            #![trigger crs[i]]
            0 <= i < crs.len() ==> ((crs[i] is None) == q_skip(b, ps[i], stand, q_fold(lower0, crs.take(i)), ic))
        &&& forall|i: int|
            #![trigger crs[i]]
            0 <= i < crs.len() && crs[i] is Some ==> q_child(b, beta, ply, q_fold(lower0, crs.take(i)), ps[i].mv, crs[i]->0, stopped)
        &&& forall|i: int|
            #![trigger crs[i]]
            0 <= i < crs.len() - 1 ==> !q_ends(crs[i], q_fold(lower0, crs.take(i + 1)), beta)
        &&& if crs.len() > 0 && q_ends(crs.last(), q_fold(lower0, crs), beta) {
            r == if stop_like(-crs.last()->0) {
                -crs.last()->0
            } else {
                q_fold(stand, crs)
            }
        } else {
            crs.len() == ps.len() && r == q_fold(stand, crs)
        }
    } else {
        false
    }
}

/// The first `crs.len()` entries of `ps` were taken as `q_run` says, and none of them ended
/// the loop.
#[verifier::opaque]
pub open spec fn q_loop(
    b: Board,
    beta: int,
    ply: int,
    ic: bool,
    stand: int,
    lower0: int,
    ps: Seq<MoveEntry>,
    crs: Seq<Option<int>>,
    stopped: bool,
) -> bool {
    &&& ply < MAX_PLY_I32
    &&& triples(ps).no_duplicates()
    &&& triples(ps).to_set() == owed_set_co(b, !ic)
    &&& forall|i: int| 0 <= i < ps.len() ==> (#[trigger] ps[i]).ordering_score == order_score(b, ps[i].mv, Move(0))
    &&& crs.len() <= ps.len()
    &&& forall|i: int, j: int|
        #![trigger ps[i], ps[j]]
        0 <= i < crs.len() && i < j < ps.len() ==> ps[i].ordering_score >= ps[j].ordering_score
    &&& forall|i: int|
        #![trigger crs[i]]
        0 <= i < crs.len() ==> ((crs[i] is None) == q_skip(b, ps[i], stand, q_fold(lower0, crs.take(i)), ic))
    &&& forall|i: int|
        #![trigger crs[i]]
        0 <= i < crs.len() && crs[i] is Some ==> q_child(b, beta, ply, q_fold(lower0, crs.take(i)), ps[i].mv, crs[i]->0, stopped)
    &&& forall|i: int|
        #![trigger crs[i]]
        0 <= i < crs.len() ==> !q_ends(crs[i], q_fold(lower0, crs.take(i + 1)), beta)
}

/// Before any entry is taken, the loop state holds of the scored entries.
proof fn lemma_q_start(
    b: Board,
    beta: int,
    ply: int,
    ic: bool,
    stand: int,
    lower0: int,
    ps: Seq<MoveEntry>,
    stopped: bool,
)
    requires
        ply < MAX_PLY_I32,
        triples(ps).no_duplicates(),
        triples(ps).to_set() == owed_set_co(b, !ic),
        forall|i: int| 0 <= i < ps.len() ==> (#[trigger] ps[i]).ordering_score == order_score(b, ps[i].mv, Move(0)),
    ensures
        q_loop(b, beta, ply, ic, stand, lower0, ps, Seq::<Option<int>>::empty(), stopped),
{
    reveal(q_loop);
}

/// Taking a best-scored remaining entry to the front of the rest keeps the loop state, and
/// puts there an entry scored at least as high as every later one.
proof fn lemma_q_select(
    b: Board,
    beta: int,
    ply: int,
    ic: bool,
    stand: int,
    lower0: int,
    ps: Seq<MoveEntry>,
    crs: Seq<Option<int>>,
    stopped: bool,
    j: int,
)
    requires
        q_loop(b, beta, ply, ic, stand, lower0, ps, crs, stopped),
        crs.len() < ps.len(),
        first_best(ps, crs.len() as int, j),
    ensures
        ({
            let k = crs.len() as int;
            let ps2 = ps.update(k, ps[j]).update(j, ps[k]);
            &&& q_loop(b, beta, ply, ic, stand, lower0, ps2, crs, stopped)
            &&& forall|m: int| k < m < ps2.len() ==> #[trigger] ps2[m].ordering_score <= ps2[k].ordering_score
        }),
{
    reveal(q_loop);
    let k = crs.len() as int;
    let ps2 = ps.update(k, ps[j]).update(j, ps[k]);
    lemma_swap_keeps_triples(ps, k, j);
    assert forall|i: int| 0 <= i < ps2.len() implies (#[trigger] ps2[i]).ordering_score == order_score(
        b,
        ps2[i].mv,
        Move(0),
    ) by {
        if i == j {
            assert(ps2[i] == ps[k]);
        } else if i == k {
        } else {
            assert(ps2[i] == ps[i]);
        }
    }
    assert forall|i: int| 0 <= i < k implies #[trigger] ps2[i] == ps[i] by {}
    assert forall|a: int, c: int|
        #![trigger ps2[a], ps2[c]]
        0 <= a < k + 1 && a < c < ps2.len() implies ps2[a].ordering_score >= ps2[c].ordering_score by {
        let vc = if c == j {
            k
        } else if c == k {
            j
        } else {
            c
        };
        assert(ps2[c] == ps[vc]);
        if a < k {
            assert(ps2[a] == ps[a]);
            assert(ps[a].ordering_score >= ps[vc].ordering_score);
        } else {
            assert(ps[vc].ordering_score <= ps[j].ordering_score);
        }
    }
    assert forall|m: int| k < m < ps2.len() implies #[trigger] ps2[m].ordering_score <= ps2[k].ordering_score by {
        assert(ps2[k] == ps2[k]);
    }
    assert forall|i: int|
        #![trigger crs[i]]
        0 <= i < crs.len() && crs[i] is Some implies q_child(b, beta, ply, q_fold(lower0, crs.take(i)), ps2[i].mv, crs[i]->0, stopped) by {
        assert(ps2[i] == ps[i]);
    }
}

/// An entry passed over keeps the loop state.
proof fn lemma_q_skip(
    b: Board,
    beta: int,
    ply: int,
    ic: bool,
    stand: int,
    lower0: int,
    ps: Seq<MoveEntry>,
    crs: Seq<Option<int>>,
    stopped: bool,
)
    requires
        q_loop(b, beta, ply, ic, stand, lower0, ps, crs, stopped),
        crs.len() < ps.len(),
        forall|m: int| crs.len() < m < ps.len() ==> #[trigger] ps[m].ordering_score <= ps[crs.len() as int].ordering_score,
        q_skip(b, ps[crs.len() as int], stand, q_fold(lower0, crs), ic),
    ensures
        q_loop(b, beta, ply, ic, stand, lower0, ps, crs.push(None), stopped),
        q_fold(lower0, crs.push(None)) == q_fold(lower0, crs),
        q_fold(stand, crs.push(None)) == q_fold(stand, crs),
{
    reveal(q_loop);
    lemma_q_push(b, beta, ply, ic, stand, lower0, ps, crs, None, stopped, stopped);
    let crs2 = crs.push(None);
    assert(crs2[crs.len() as int] is None);
}

/// The per-entry facts of the loop state carry over to one more entry whose own facts hold.
#[verifier::spinoff_prover]
#[verifier::rlimit(60)]
proof fn lemma_q_push(
    b: Board,
    beta: int,
    ply: int,
    ic: bool,
    stand: int,
    lower0: int,
    ps: Seq<MoveEntry>,
    crs: Seq<Option<int>>,
    cr: Option<int>,
    stopped: bool,
    stopped2: bool,
)
    requires
        crs.len() < ps.len(),
        stopped ==> stopped2,
        forall|i: int|
            #![trigger crs[i]]
            0 <= i < crs.len() ==> ((crs[i] is None) == q_skip(b, ps[i], stand, q_fold(lower0, crs.take(i)), ic)),
        forall|i: int|
            #![trigger crs[i]]
            0 <= i < crs.len() && crs[i] is Some ==> q_child(b, beta, ply, q_fold(lower0, crs.take(i)), ps[i].mv, crs[i]->0, stopped),
        forall|i: int|
            #![trigger crs[i]]
            0 <= i < crs.len() ==> !q_ends(crs[i], q_fold(lower0, crs.take(i + 1)), beta),
        (cr is None) == q_skip(b, ps[crs.len() as int], stand, q_fold(lower0, crs), ic),
        cr is Some ==> q_child(b, beta, ply, q_fold(lower0, crs), ps[crs.len() as int].mv, cr->0, stopped2),
    ensures
        ({
            let crs2 = crs.push(cr);
            &&& forall|i: int|
                #![trigger crs2[i]]
                0 <= i < crs2.len() ==> ((crs2[i] is None) == q_skip(b, ps[i], stand, q_fold(lower0, crs2.take(i)), ic))
            &&& forall|i: int|
                #![trigger crs2[i]]
                0 <= i < crs2.len() && crs2[i] is Some ==> q_child(b, beta, ply, q_fold(lower0, crs2.take(i)), ps[i].mv, crs2[i]->0, stopped2)
            &&& forall|i: int|
                #![trigger crs2[i]]
                0 <= i < crs2.len() - 1 ==> !q_ends(crs2[i], q_fold(lower0, crs2.take(i + 1)), beta)
            &&& crs2.take(crs.len() as int) == crs
            &&& crs2.take(crs2.len() as int) == crs2
            &&& crs2.drop_last() == crs
            &&& crs2.last() == cr
        }),
{
    let k = crs.len() as int;
    let crs2 = crs.push(cr);
    assert(crs2.drop_last() =~= crs);
    assert(crs2.take(k) =~= crs);
    assert(crs2.take(k + 1) =~= crs2);
    assert forall|i: int| 0 <= i < k implies #[trigger] crs2.take(i) == crs.take(i) && crs2.take(i + 1)
        == crs.take(i + 1) && crs2[i] == crs[i] by {
        assert(crs2.take(i) =~= crs.take(i));
        assert(crs2.take(i + 1) =~= crs.take(i + 1));
    }
    assert forall|i: int|
        #![trigger crs2[i]]
        0 <= i < crs2.len() && crs2[i] is Some implies q_child(b, beta, ply, q_fold(lower0, crs2.take(i)), ps[i].mv, crs2[i]->0, stopped2) by {
        if i < k {
            assert(crs2.take(i) == crs.take(i));
            assert(crs[i] is Some);
            assert(q_child(b, beta, ply, q_fold(lower0, crs.take(i)), ps[i].mv, crs[i]->0, stopped));
            lemma_q_child_weaken(b, beta, ply, q_fold(lower0, crs.take(i)), ps[i].mv, crs[i]->0, stopped, stopped2);
        }
    }
    assert forall|i: int|
        #![trigger crs2[i]]
        0 <= i < crs2.len() implies ((crs2[i] is None) == q_skip(b, ps[i], stand, q_fold(lower0, crs2.take(i)), ic)) by {
        if i < k {
            assert(crs2.take(i) == crs.take(i));
            assert(crs[i] == crs2[i]);
        }
    }
    assert forall|i: int|
        #![trigger crs2[i]]
        0 <= i < crs2.len() - 1 implies !q_ends(crs2[i], q_fold(lower0, crs2.take(i + 1)), beta) by {
        assert(crs2.take(i + 1) == crs.take(i + 1));
        assert(crs[i] == crs2[i]);
    }
}

/// A child result allowed with fewer stops is allowed with more.
proof fn lemma_q_child_weaken(b: Board, beta: int, ply: int, lower: int, mv: Move, v: int, stopped: bool, stopped2: bool)
    requires
        q_child(b, beta, ply, lower, mv, v, stopped),
        stopped ==> stopped2,
    ensures
        q_child(b, beta, ply, lower, mv, v, stopped2),
{
}

/// A searched entry with child result `v` either ends the loop, with the result `q_run`
/// gives, or keeps the loop state.
#[verifier::spinoff_prover]
#[verifier::rlimit(60)]
proof fn lemma_q_child(
    b: Board,
    beta: int,
    ply: int,
    ic: bool,
    stand: int,
    lower0: int,
    ps: Seq<MoveEntry>,
    crs: Seq<Option<int>>,
    stopped: bool,
    c: Board,
    v: int,
    cs: bool,
    stopped2: bool,
)
    requires
        q_loop(b, beta, ply, ic, stand, lower0, ps, crs, stopped),
        crs.len() < ps.len(),
        forall|m: int| crs.len() < m < ps.len() ==> #[trigger] ps[m].ordering_score <= ps[crs.len() as int].ordering_score,
        !q_skip(b, ps[crs.len() as int], stand, q_fold(lower0, crs), ic),
        b.made(ps[crs.len() as int].mv, c),
        q_value(c, -beta, -q_fold(lower0, crs), ply + 1, v, cs),
        cs ==> stopped2,
        stopped ==> stopped2,
    ensures
        ({
            let crs2 = crs.push(Some(v));
            &&& q_fold(lower0, crs2) == if -v > q_fold(lower0, crs) {
                -v
            } else {
                q_fold(lower0, crs)
            }
            &&& q_fold(stand, crs2) == if -v > q_fold(stand, crs) {
                -v
            } else {
                q_fold(stand, crs)
            }
            &&& q_ends(Some(v), q_fold(lower0, crs2), beta) ==> q_run(
                b,
                beta,
                ply,
                ic,
                stand,
                lower0,
                ps,
                crs2,
                if stop_like(-v) {
                    -v
                } else {
                    q_fold(stand, crs2)
                },
                stopped2,
            )
            &&& !q_ends(Some(v), q_fold(lower0, crs2), beta) ==> q_loop(
                b,
                beta,
                ply,
                ic,
                stand,
                lower0,
                ps,
                crs2,
                stopped2,
            )
        }),
{
    reveal(q_loop);
    let k = crs.len() as int;
    let crs2 = crs.push(Some(v));
    assert(q_child(b, beta, ply, q_fold(lower0, crs), ps[k].mv, v, stopped2)) by {
        assert(b.made(ps[k].mv, c));
    }
    lemma_q_push(b, beta, ply, ic, stand, lower0, ps, crs, Some(v), stopped, stopped2);
    assert(crs2[k] == Some(v));
}

/// Once every entry was taken without ending the loop, the loop's result is the best score.
#[verifier::rlimit(50)]
proof fn lemma_q_done(
    b: Board,
    beta: int,
    ply: int,
    ic: bool,
    stand: int,
    lower0: int,
    ps: Seq<MoveEntry>,
    crs: Seq<Option<int>>,
    stopped: bool,
)
    requires
        q_loop(b, beta, ply, ic, stand, lower0, ps, crs, stopped),
        crs.len() == ps.len(),
    ensures
        q_run(b, beta, ply, ic, stand, lower0, ps, crs, q_fold(stand, crs), stopped),
{
    reveal(q_loop);
    if crs.len() > 0 {
        let k = crs.len() - 1;
        assert(crs.take(k + 1) =~= crs);
        assert(crs[k] == crs.last());
    }
}

/// A loop result of a searchable position out of a cut-off is its quiescence value.
#[verifier::rlimit(100)]
proof fn lemma_q_value_of_run(
    b: Board,
    alpha: int,
    beta: int,
    ply: int,
    ps: Seq<MoveEntry>,
    crs: Seq<Option<int>>,
    r: int,
    stopped: bool,
)
    requires
        alpha < beta,
        !b.draw_spec(),
        b.gen_ready(),
        b.kings_present(),
        ply < MAX_PLY_I32,
        !in_check_spec(b) ==> b.material_eval() < beta,
        q_run(b, beta, ply, in_check_spec(b), q_stand(b, ply), q_lower0(b, alpha, ply), ps, crs, r, stopped),
    ensures
        q_value(b, alpha, beta, ply, r, stopped),
{
    assert(triples(ps) == triples(ps));
}

/// Swapping two entries keeps every move of the list playable.
pub proof fn lemma_swap_keeps_gen_ok(b: Board, s: Seq<MoveEntry>, i: int, j: int)
    requires
        b.all_gen_ok(s),
        0 <= i < s.len(),
        0 <= j < s.len(),
    ensures
        b.all_gen_ok(s.update(i, s[j]).update(j, s[i])),
{
    let t = s.update(i, s[j]).update(j, s[i]);
    assert forall|k: int| 0 <= k < t.len() implies #[trigger] b.gen_ok(t[k].mv) by {
        if k == j {
        } else if k == i {
        } else {
            assert(t[k] == s[k]);
        }
    }
}

/// Plays `mv`, runs `child` below it and takes `mv` back, leaving the board as it was. Used
/// by the searches to visit a child position.
pub proof fn lemma_child_restores(b0: Board, mv: Move, b1: Board, b1_after: Board, b2: Board)
    requires
        b0.move_ok(mv),
        b0.made(mv, b1),
        b1_after.same_board(b1),
        b1_after.unmade(mv, b2),
    ensures
        b2.same_board(b0),
{
    assert(b1.unmade(mv, b2));
    lemma_make_undo_roundtrip(b0, mv, b1, b2);
}

/// Quiescence search: from a quiet enough position the static evaluation stands; otherwise
/// captures (all moves when in check) are searched, skipping those that lose material by
/// exchange or cannot reach alpha. Returns `Score::NONE` when the search must stop.
pub fn qsearch<NODE: NodeType>(search_data: &mut SearchData, alpha: i32, beta: i32, ply: i32) -> (r: i32)
    requires
        old(search_data).ready(),
        0 <= ply <= MAX_PLY_I32,
        -SCORE_LIMIT <= alpha <= SCORE_LIMIT,
        -SCORE_LIMIT <= beta <= SCORE_LIMIT,
    ensures
        final(search_data).ready(),
        final(search_data).board.same_board(old(search_data).board),
        final(search_data).keeps(*old(search_data)),
        final(search_data).shared_data.tt == old(search_data).shared_data.tt,
        -SCORE_LIMIT <= r <= SCORE_LIMIT,
        q_value(
            old(search_data).board,
            alpha as int,
            beta as int,
            ply as int,
            r as int,
            final(search_data).stops_seen() > old(search_data).stops_seen(),
        ),
        alpha >= beta ==> r == alpha,
        alpha < beta && old(search_data).board.draw_spec() ==> r == 0,
        alpha < beta && !old(search_data).board.draw_spec() && !(old(search_data).board.gen_ready()
            && old(search_data).board.kings_present() && in_check_spec(old(search_data).board)) ==> r
            >= old(search_data).board.material_eval() || stop_like(r as int),
        alpha < beta && !old(search_data).board.draw_spec() && old(search_data).board.gen_ready()
            && old(search_data).board.kings_present() && in_check_spec(old(search_data).board) && no_owed_move(
            old(search_data).board,
        ) ==> r == ply - Score::MATE || (r == Score::NONE && final(search_data).stops_seen()
            > old(search_data).stops_seen()),
    decreases MAX_PLY_I32 - ply,
{
    search_data.shared_data.nodes.increment();
    if alpha >= beta {
        return alpha;
    }
    if search_data.board.is_draw() {
        return 0;
    }
    if search_data.should_stop() {
        return Score::NONE;
    }
    if !search_data.board.ready_to_generate() {
        return search_data.evaluate();
    }
    let mut lower = alpha;
    let in_check = search_data.board.in_check();
    let stand_pat: i32;
    if in_check {
        stand_pat = Score::mated_in(ply);
    } else {
        stand_pat = search_data.evaluate();
        if stand_pat >= beta {
            return stand_pat;
        }
        if stand_pat > lower {
            lower = stand_pat;
        }
    }
    if ply >= MAX_PLY_I32 {
        return stand_pat;
    }
    let ghost lower0 = lower as int;
    let mut move_list = search_data.board.generate_all_legal_moves(!in_check);
    proof {
        lemma_list_enumerates(search_data.board, !in_check, move_list@);
        if in_check && no_owed_move(search_data.board) {
            lemma_no_owed_empty(search_data.board, !in_check, move_list@);
        }
    }
    if move_list.is_empty() {
        proof {
            let crs = Seq::<Option<int>>::empty();
            assert(stand_pat == q_stand(search_data.board, ply as int));
            assert(lower0 == q_lower0(search_data.board, alpha as int, ply as int));
            lemma_q_start(search_data.board, beta as int, ply as int, in_check, stand_pat as int, lower0, move_list@, false);
            lemma_q_done(search_data.board, beta as int, ply as int, in_check, stand_pat as int, lower0, move_list@, crs, false);
            lemma_q_value_of_run(search_data.board, alpha as int, beta as int, ply as int, move_list@, crs, stand_pat as int, false);
        }
        if in_check {
            return Score::mated_in(ply);
        }
        return stand_pat;
    }
    let ghost sd0 = *search_data;
    let ghost mut crs = Seq::<Option<int>>::empty();
    let mut best_score: i32 = stand_pat;
    let ghost list0 = move_list@;
    let mut ordered_moves = OrderedMoves::new(&mut move_list);
    ordered_moves.score_moves(search_data, Move::none());
    proof {
        assert(triples(ordered_moves.move_list@) =~= triples(list0));
        lemma_q_start(sd0.board, beta as int, ply as int, in_check, stand_pat as int, lower0, ordered_moves.move_list@, false);
    }
    while ordered_moves.idx < ordered_moves.move_list.len()
        invariant
            search_data.ready(),
            search_data.board.same_board(sd0.board),
            search_data.keeps(sd0),
            search_data.shared_data.tt == old(search_data).shared_data.tt,
            sd0.board == old(search_data).board,
            sd0.keeps(*old(search_data)),
            sd0.stops_seen() == old(search_data).stops_seen(),
            alpha < beta,
            !sd0.board.draw_spec(),
            sd0.board.wf(),
            sd0.board.gen_ready(),
            sd0.board.kings_present(),
            sd0.board.material_ok(),
            sd0.board.all_gen_ok(ordered_moves.move_list@),
            forall|i: int|
                0 <= i < ordered_moves.move_list@.len() ==> #[trigger] ordered_moves.move_list@[i].ordering_score >= 0,
            -SCORE_LIMIT <= lower <= SCORE_LIMIT,
            -SCORE_LIMIT <= beta <= SCORE_LIMIT,
            -SCORE_LIMIT <= best_score <= SCORE_LIMIT,
            -SCORE_LIMIT <= stand_pat <= 422400,
            0 <= ply < MAX_PLY_I32,
            best_score >= stand_pat,
            !in_check ==> stand_pat == sd0.board.material_eval(),
            in_check ==> stand_pat == ply - Score::MATE,
            !in_check ==> stand_pat < beta,
            stand_pat == q_stand(sd0.board, ply as int),
            lower0 == q_lower0(sd0.board, alpha as int, ply as int),
            in_check == in_check_spec(sd0.board),
            in_check ==> !no_owed_move(sd0.board),
            ordered_moves.idx <= ordered_moves.move_list@.len(),
            crs.len() == ordered_moves.idx,
            best_score == q_fold(stand_pat as int, crs),
            lower == q_fold(lower0, crs),
            q_loop(
                sd0.board,
                beta as int,
                ply as int,
                in_check,
                stand_pat as int,
                lower0,
                ordered_moves.move_list@,
                crs,
                search_data.stops_seen() > sd0.stops_seen(),
            ),
        decreases ordered_moves.move_list@.len() - ordered_moves.idx,
    {
        let ghost list_before = ordered_moves.move_list@;
        let ghost idx0 = ordered_moves.idx as int;
        let ghost st = search_data.stops_seen() > sd0.stops_seen();
        let move_entry = ordered_moves.select_next_best();
        proof {
            let j = choose|j: int|
                #![trigger list_before[j]]
                first_best(list_before, idx0, j) && move_entry == list_before[j]
                    && ordered_moves.move_list@ == list_before.update(idx0, list_before[j]).update(
                    j,
                    list_before[idx0],
                );
            let ml = ordered_moves.move_list@;
            lemma_swap_keeps_gen_ok(sd0.board, list_before, idx0, j);
            lemma_q_select(sd0.board, beta as int, ply as int, in_check, stand_pat as int, lower0, list_before, crs, st, j);
            assert(sd0.board.gen_ok(move_entry.mv));
            assert(ml[idx0] == move_entry);
            assert forall|i: int| 0 <= i < ml.len() implies #[trigger] ml[i].ordering_score >= 0 by {
                if i == j {
                    assert(ml[i] == list_before[idx0]);
                } else if i == idx0 {
                } else {
                    assert(ml[i] == list_before[i]);
                }
            }
        }
        let mv = move_entry.mv();
        if !in_check {
            let see_score = move_entry.score() - CAPTURE_VALUE;
            if see_score < 0 {
                proof {
                    lemma_q_skip(sd0.board, beta as int, ply as int, in_check, stand_pat as int, lower0, ordered_moves.move_list@, crs, st);
                    crs = crs.push(None);
                }
                continue;
            }
            let value = search_data.board.get_piece_on_square(mv.to()).value();
            let captured_value = if value < 0 {
                -value
            } else {
                value
            };
            if stand_pat + captured_value + DELTA_MARGIN < lower {
                proof {
                    assert(search_data.board.squares() == sd0.board.squares());
                    lemma_q_skip(sd0.board, beta as int, ply as int, in_check, stand_pat as int, lower0, ordered_moves.move_list@, crs, st);
                    crs = crs.push(None);
                }
                continue;
            }
        }
        proof {
            lemma_same_board_moves(search_data.board, sd0.board, mv, search_data.board);
            assert(search_data.board.squares() == sd0.board.squares());
        }
        if !search_data.board.can_play(mv) {
            proof {
                lemma_q_skip(sd0.board, beta as int, ply as int, in_check, stand_pat as int, lower0, ordered_moves.move_list@, crs, st);
                crs = crs.push(None);
            }
            continue;
        }
        let ghost b0 = search_data.board;
        search_data.make_move(mv);
        let ghost b1 = search_data.board;
        let ghost sd_child = *search_data;
        let child = qsearch::<NonPV>(search_data, -beta, -lower, ply + 1);
        let ghost cs = search_data.stops_seen() > sd_child.stops_seen();
        proof {
            lemma_undo_applicable(b0, mv, b1);
            lemma_same_board_moves(b0, sd0.board, mv, b1);
        }
        let ghost b1_after = search_data.board;
        search_data.undo_move(mv);
        let ghost st2 = search_data.stops_seen() > sd0.stops_seen();
        proof {
            lemma_child_restores(b0, mv, b1, b1_after, search_data.board);
            lemma_q_child(
                sd0.board,
                beta as int,
                ply as int,
                in_check,
                stand_pat as int,
                lower0,
                ordered_moves.move_list@,
                crs,
                st,
                b1,
                child as int,
                cs,
                st2,
            );
            crs = crs.push(Some(child as int));
        }
        let score = -child;
        if score >= Score::NONE || score <= -Score::NONE {
            proof {
                lemma_q_value_of_run(sd0.board, alpha as int, beta as int, ply as int, ordered_moves.move_list@, crs, score as int, st2);
            }
            return score;
        }
        if score > best_score {
            best_score = score;
        }
        if score > lower {
            lower = score;
        }
        if lower >= beta {
            proof {
                lemma_q_value_of_run(sd0.board, alpha as int, beta as int, ply as int, ordered_moves.move_list@, crs, best_score as int, st2);
            }
            return best_score;
        }
    }
    proof {
        lemma_q_done(sd0.board, beta as int, ply as int, in_check, stand_pat as int, lower0, ordered_moves.move_list@, crs, search_data.stops_seen() > sd0.stops_seen());
        lemma_q_value_of_run(sd0.board, alpha as int, beta as int, ply as int, ordered_moves.move_list@, crs, best_score as int, search_data.stops_seen() > sd0.stops_seen());
    }
    best_score
}

} // verus!
