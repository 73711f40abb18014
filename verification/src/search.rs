pub mod alpha_beta;
pub mod info;
pub mod move_ordering;
pub mod qsearch;
pub mod search_types;
pub mod see;

use vstd::prelude::*;
use crate::board::Board;
use crate::board::generate_moves::{
    in_check_spec, no_owed_move, lemma_no_owed_empty, all_owed, listed_once, owed_set, lemma_list_counts_owed, owed,
    owed_set_co, triples, lemma_list_enumerates,
};
use crate::search::move_ordering::{OrderedMoves, first_best};
use crate::search::qsearch::{qsearch, lemma_swap_keeps_gen_ok, lemma_child_restores, SCORE_LIMIT, MAX_PLY_I32, q_fold, q_ends, stop_like};
use crate::search::alpha_beta::{
    s_value, s_child, s_steps, s_best_move, lemma_s_start, lemma_s_select, lemma_s_push, lemma_s_finish,
    lemma_s_value_of_run, lemma_s_best_move_prefix,
};
use crate::search::search_types::{SearchData, RootMove};
use crate::board::make_move::{lemma_undo_applicable, lemma_same_board_moves};
use crate::time_manager::{Limits, soft_due_spec};
use crate::types::move_list::{MoveEntry, MoveList};
use crate::types::moves::Move;
use crate::types::score::Score;
use crate::types::tt::{Bound, probe_spec, store_spec};

verus! {

/// The kind of a node of the search tree: on the principal variation, and the root.
pub trait NodeType {
    const PV: bool;
    const ROOT: bool;
}

/// The root of the search.
pub struct Root;

impl NodeType for Root {
    const PV: bool = true;
    const ROOT: bool = true;
}

/// A node on the principal variation below the root.
pub struct PV;

impl NodeType for PV {
    const PV: bool = true;
    const ROOT: bool = false;
}

/// A node off the principal variation.
pub struct NonPV;

impl NodeType for NonPV {
    const PV: bool = false;
    const ROOT: bool = false;
}

/// What the contract of `search` says of a result `r` at a node on the principal variation:
/// it lies within the score limit; a drawn position gives 0; to a positive depth, a position
/// that cannot be searched gives its evaluation, and one with no legal move gives mated at
/// `ply` in check and 0 otherwise; the stop signal `Score::NONE` may come anywhere.
pub open spec fn search_outcome(b: Board, depth: int, ply: int, r: int) -> bool {
    &&& -SCORE_LIMIT <= r <= SCORE_LIMIT
    &&& b.draw_spec() ==> r == 0 || r == Score::NONE
    &&& !b.draw_spec() && depth > 0 && !(b.gen_ready() && b.kings_present()) && r != Score::NONE ==> r
        == b.material_eval()
    &&& !b.draw_spec() && depth > 0 && b.gen_ready() && b.kings_present() && no_owed_move(b) && r
        != Score::NONE ==> r == if in_check_spec(b) {
        ply - Score::MATE
    } else {
        0
    }
}

/// The best of the root move scores in `rs` (`None` for a move that could not be played),
/// and -`Score::INF` when there is none.
pub open spec fn root_fold(rs: Seq<Option<int>>) -> int
    decreases rs.len(),
{
    if rs.len() == 0 {
        -Score::INF
    } else {
        let prev = root_fold(rs.drop_last());
        match rs.last() {
            Some(v) => if v > prev {
                v
            } else {
                prev
            },
            None => prev,
        }
    }
}

/// The first position in `rs` whose score is the best (0 when there is none).
pub open spec fn root_first(rs: Seq<Option<int>>) -> int
    decreases rs.len(),
{
    if rs.len() == 0 {
        0
    } else {
        match rs.last() {
            Some(v) => if v > root_fold(rs.drop_last()) {
                rs.len() - 1
            } else {
                root_first(rs.drop_last())
            },
            None => root_first(rs.drop_last()),
        }
    }
}

/// `v` is a result of searching the root move `mv` of `b`: of the search, on the principal
/// variation, of the position after it to `depth - 1` plies at ply 1 with the window
/// (-`Score::INF`, -`best`), taking the table from `e` to `e2`; `stopped` allows a stop.
#[verifier::opaque]
pub open spec fn root_child(b: Board, e: Seq<u64>, age: u8, depth: int, best: int, mv: Move, v: int, e2: Seq<u64>, stopped: bool) -> bool {
    exists|c: Board|
        #[trigger] b.made(mv, c) && (s_value(c, e, age, -Score::INF, -best, depth - 1, 1, true, v, e2, false) || (
        stopped && s_value(c, e, age, -Score::INF, -best, depth - 1, 1, true, v, e2, true)))
}

/// `rs` holds, in list order, the scores of the first `rs.len()` root moves `ms` of `b`, the
/// table going through `es`: `None` for a move that cannot be played, otherwise the negated
/// child result (`root_child`) with the best score so far.
#[verifier::opaque]
pub open spec fn root_results(
    b: Board,
    ms: Seq<MoveEntry>,
    depth: int,
    age: u8,
    rs: Seq<Option<int>>,
    es: Seq<Seq<u64>>,
    stopped: bool,
) -> bool {
    &&& rs.len() <= ms.len()
    &&& es.len() == rs.len() + 1
    &&& forall|i: int| #![trigger rs[i]] 0 <= i < rs.len() ==> ((rs[i] is None) == !b.move_ok(ms[i].mv))
    &&& forall|i: int| #![trigger rs[i]] 0 <= i < rs.len() && rs[i] is None ==> es[i + 1] == es[i]
    &&& forall|i: int|
        #![trigger rs[i]]
        0 <= i < rs.len() && rs[i] is Some ==> root_child(
            b,
            es[i],
            age,
            depth,
            root_fold(rs.take(i)),
            ms[i].mv,
            -rs[i]->0,
            es[i + 1],
            stopped,
        )
}

/// After the root moves with scores `rs`, the best move and score: those of the first best
/// move, which stands at the front of `ms2`, when some move scored above -`Score::INF`; the
/// ones from before, `rm0`, otherwise.
#[verifier::opaque]
pub open spec fn root_outcome(ms: Seq<MoveEntry>, rs: Seq<Option<int>>, rm0: RootMove, rm: RootMove, ms2: Seq<MoveEntry>) -> bool {
    if root_fold(rs) > -Score::INF {
        &&& rm.score == root_fold(rs)
        &&& rm.mv == ms[root_first(rs)].mv
        &&& ms2[0] == ms[root_first(rs)]
    } else {
        rm == rm0
    }
}

/// Alpha-beta search of the position to `depth` plies, then quiescence search. Table hits
/// end the search of nodes off the principal variation. Returns `Score::NONE` when the search
/// must stop, 0 for a drawn position, and a mate score when the side to move is mated.
fn search<Node: NodeType>(search_data: &mut SearchData, alpha: i32, beta: i32, depth: i32, ply: i32) -> (r: i32)
    requires
        old(search_data).ready(),
        1 <= ply <= MAX_PLY_I32,
        depth <= 0 || ply + depth <= MAX_PLY_I32,
        -SCORE_LIMIT <= alpha <= SCORE_LIMIT,
        -SCORE_LIMIT <= beta <= SCORE_LIMIT,
    ensures
        final(search_data).ready(),
        final(search_data).board.same_board(old(search_data).board),
        final(search_data).keeps(*old(search_data)),
        final(search_data).shared_data.tt.age == old(search_data).shared_data.tt.age,
        s_value(
            old(search_data).board,
            old(search_data).shared_data.tt.entries@,
            old(search_data).shared_data.tt.age,
            alpha as int,
            beta as int,
            depth as int,
            ply as int,
            Node::PV,
            r as int,
            final(search_data).shared_data.tt.entries@,
            final(search_data).stops_seen() > old(search_data).stops_seen(),
        ),
        -SCORE_LIMIT <= r <= SCORE_LIMIT,
        Node::PV ==> search_outcome(old(search_data).board, depth as int, ply as int, r as int),
        old(search_data).board.draw_spec() ==> r == 0 || r == Score::NONE,
        Node::PV && !old(search_data).board.draw_spec() && depth > 0 && !(old(search_data).board.gen_ready()
            && old(search_data).board.kings_present()) && r != Score::NONE ==> r
            == old(search_data).board.material_eval(),
        (Node::PV || probe_spec(
            old(search_data).shared_data.tt.entries@,
            old(search_data).board.board_state.hash_keys.zob,
            depth as int,
            alpha as int,
            beta as int,
            ply as int,
        ).score is None) && !old(search_data).board.draw_spec() && depth > 0 && old(search_data).board.gen_ready()
            && old(search_data).board.kings_present() && no_owed_move(old(search_data).board) && r != Score::NONE
            ==> r == if in_check_spec(old(search_data).board) {
            ply - Score::MATE
        } else {
            0
        },
    decreases depth,
{
    search_data.shared_data.nodes.increment();
    if search_data.should_stop() {
        return Score::NONE;
    }
    if search_data.board.is_draw() {
        return 0;
    }
    if depth <= 0 {
        return qsearch::<NonPV>(search_data, alpha, beta, ply);
    }
    let hash = search_data.board.hash();
    let tt_probe = search_data.shared_data.tt.probe(hash, depth, alpha, beta, ply);
    match tt_probe.score {
        Some(score) => {
            if !Node::PV {
                return score;
            }
        },
        None => {},
    }
    if !search_data.board.ready_to_generate() {
        return search_data.evaluate();
    }
    let mut moves = search_data.board.generate_all_legal_moves(false);
    proof {
        lemma_list_enumerates(search_data.board, false, moves@);
        if no_owed_move(search_data.board) {
            lemma_no_owed_empty(search_data.board, false, moves@);
        }
    }
    let in_check = search_data.board.in_check();
    if moves.is_empty() {
        proof {
            assert forall|f: int, t: int, code: int| !#[trigger] owed(search_data.board, f, t, code) by {
                if owed(search_data.board, f, t, code) {
                    assert(owed_set_co(search_data.board, false).contains((f, t, code)));
                    assert(triples(moves@).len() == 0);
                    assert(!triples(moves@).contains((f, t, code)));
                }
            }
        }
        if in_check {
            return Score::mated_in(ply);
        }
        return 0;
    }
    let ghost sd0 = *search_data;
    let ghost e0 = search_data.shared_data.tt.entries@;
    let ghost age = search_data.shared_data.tt.age;
    let ghost ttmv = tt_probe.best_move;
    let ghost mut crs = Seq::<Option<int>>::empty();
    let ghost mut es = seq![e0];
    let ghost list0 = moves@;
    let mut ordered_moves = OrderedMoves::new(&mut moves);
    ordered_moves.score_moves(search_data, tt_probe.best_move);
    proof {
        assert(triples(ordered_moves.move_list@) =~= triples(list0));
        lemma_s_start(sd0.board, age, alpha as int, beta as int, depth as int, ply as int, ttmv, ordered_moves.move_list@, e0, false);
    }
    let mut best_score: i32 = -Score::INF;
    let mut best_move = tt_probe.best_move;
    let mut lower = alpha;
    let mut ended = false;
    while ordered_moves.idx < ordered_moves.move_list.len() && !ended
        invariant
            search_data.ready(),
            search_data.board.same_board(sd0.board),
            search_data.keeps(sd0),
            sd0.board == old(search_data).board,
            sd0.keeps(*old(search_data)),
            sd0.stops_seen() == old(search_data).stops_seen(),
            !sd0.board.draw_spec(),
            sd0.board.wf(),
            sd0.board.gen_ready(),
            sd0.board.kings_present(),
            sd0.board.material_ok(),
            sd0.board.all_gen_ok(ordered_moves.move_list@),
            -SCORE_LIMIT <= lower <= SCORE_LIMIT,
            -SCORE_LIMIT <= beta <= SCORE_LIMIT,
            -Score::INF <= best_score <= SCORE_LIMIT,
            1 <= ply < MAX_PLY_I32,
            1 <= depth,
            ply + depth <= MAX_PLY_I32,
            !no_owed_move(sd0.board),
            e0 == old(search_data).shared_data.tt.entries@,
            age == old(search_data).shared_data.tt.age,
            search_data.shared_data.tt.age == age,
            ttmv == probe_spec(e0, sd0.board.board_state.hash_keys.zob, depth as int, alpha as int, beta as int, ply as int).best_move,
            ttmv == tt_probe.best_move,
            !Node::PV ==> probe_spec(e0, sd0.board.board_state.hash_keys.zob, depth as int, alpha as int, beta as int, ply as int).score is None,
            hash == sd0.board.board_state.hash_keys.zob,
            ordered_moves.idx <= ordered_moves.move_list@.len(),
            crs.len() == ordered_moves.idx,
            es.len() == crs.len() + 1,
            es[0] == e0,
            search_data.shared_data.tt.entries@ == es.last(),
            best_score == q_fold(-Score::INF, crs),
            lower == q_fold(alpha as int, crs),
            best_move == s_best_move(ttmv, ordered_moves.move_list@, crs),
            !ended ==> (crs.len() > 0 ==> !q_ends(crs.last(), q_fold(alpha as int, crs), beta as int)),
            ended ==> crs.len() > 0 && q_ends(crs.last(), q_fold(alpha as int, crs), beta as int) && !stop_like(-crs.last()->0),
            s_steps(
                sd0.board,
                age,
                alpha as int,
                beta as int,
                depth as int,
                ply as int,
                ttmv,
                ordered_moves.move_list@,
                crs,
                es,
                search_data.stops_seen() > sd0.stops_seen(),
            ),
        decreases ordered_moves.move_list@.len() - ordered_moves.idx + if ended {
            0int
        } else {
            1int
        },
    {
        let ghost list_before = ordered_moves.move_list@;
        let ghost idx0 = ordered_moves.idx as int;
        let ghost st = search_data.stops_seen() > sd0.stops_seen();
        let move_entry = ordered_moves.select_next_best();
        proof {
            let j = choose|j: int|
                #![trigger list_before[j]]
                first_best(list_before, idx0, j) && move_entry == list_before[j]
                    && ordered_moves.move_list@ == list_before.update(idx0, list_before[j]).update(
                    j,
                    list_before[idx0],
                );
            lemma_swap_keeps_gen_ok(sd0.board, list_before, idx0, j);
            lemma_s_select(sd0.board, age, alpha as int, beta as int, depth as int, ply as int, ttmv, list_before, crs, es, st, j);
            assert forall|i: int| 0 <= i < crs.len() implies #[trigger] ordered_moves.move_list@[i] == list_before[i] by {}
            lemma_s_best_move_prefix(ttmv, list_before, ordered_moves.move_list@, crs);
            assert(sd0.board.gen_ok(move_entry.mv));
            assert(ordered_moves.move_list@[idx0] == move_entry);
        }
        let mv = move_entry.mv();
        proof {
            lemma_same_board_moves(search_data.board, sd0.board, mv, search_data.board);
        }
        if !search_data.board.can_play(mv) {
            proof {
                lemma_s_push(
                    sd0.board,
                    age,
                    alpha as int,
                    beta as int,
                    depth as int,
                    ply as int,
                    ttmv,
                    ordered_moves.move_list@,
                    crs,
                    es,
                    None,
                    es.last(),
                    st,
                    st,
                );
                crs = crs.push(None);
                es = es.push(es.last());
            }
            continue;
        }
        let ghost b0 = search_data.board;
        let ghost e_before = search_data.shared_data.tt.entries@;
        search_data.board.make_move(mv);
        let ghost b1 = search_data.board;
        let ghost sd_child = *search_data;
        let child = search::<NonPV>(search_data, -beta, -lower, depth - 1, ply + 1);
        let ghost cs = search_data.stops_seen() > sd_child.stops_seen();
        proof {
            lemma_undo_applicable(b0, mv, b1);
            lemma_same_board_moves(b0, sd0.board, mv, b1);
        }
        let ghost b1_after = search_data.board;
        search_data.board.undo_move(mv);
        let ghost st2 = search_data.stops_seen() > sd0.stops_seen();
        let ghost e_after = search_data.shared_data.tt.entries@;
        proof {
            lemma_child_restores(b0, mv, b1, b1_after, search_data.board);
            assert(sd0.board.made(ordered_moves.move_list@[idx0].mv, b1));
            assert(s_child(
                sd0.board,
                es.last(),
                age,
                beta as int,
                depth as int,
                ply as int,
                q_fold(alpha as int, crs),
                ordered_moves.move_list@[idx0].mv,
                child as int,
                e_after,
                st2,
            ));
            lemma_s_push(
                sd0.board,
                age,
                alpha as int,
                beta as int,
                depth as int,
                ply as int,
                ttmv,
                ordered_moves.move_list@,
                crs,
                es,
                Some(child as int),
                e_after,
                st,
                st2,
            );
            crs = crs.push(Some(child as int));
            es = es.push(e_after);
        }
        let score = -child;
        if score >= Score::NONE || score <= -Score::NONE {
            proof {
                lemma_s_finish(
                    sd0.board,
                    age,
                    alpha as int,
                    beta as int,
                    depth as int,
                    ply as int,
                    ttmv,
                    ordered_moves.move_list@,
                    crs,
                    es,
                    score as int,
                    e_after,
                    st2,
                );
                lemma_s_value_of_run(
                    sd0.board,
                    e0,
                    age,
                    alpha as int,
                    beta as int,
                    depth as int,
                    ply as int,
                    Node::PV,
                    ordered_moves.move_list@,
                    crs,
                    es,
                    score as int,
                    e_after,
                    st2,
                );
            }
            return score;
        }
        if score > best_score {
            best_score = score;
            best_move = mv;
        }
        if score > lower {
            lower = score;
        }
        if lower >= beta {
            ended = true;
        }
    }
    let bound = if best_score >= beta {
        Bound::Lower
    } else if best_score <= alpha {
        Bound::Upper
    } else {
        Bound::Exact
    };
    let ghost e_last = search_data.shared_data.tt.entries@;
    search_data.shared_data.tt.store(hash, best_move, depth, best_score, bound, ply);
    proof {
        let st = search_data.stops_seen() > sd0.stops_seen();
        lemma_s_finish(
            sd0.board,
            age,
            alpha as int,
            beta as int,
            depth as int,
            ply as int,
            ttmv,
            ordered_moves.move_list@,
            crs,
            es,
            best_score as int,
            search_data.shared_data.tt.entries@,
            st,
        );
        lemma_s_value_of_run(
            sd0.board,
            e0,
            age,
            alpha as int,
            beta as int,
            depth as int,
            ply as int,
            Node::PV,
            ordered_moves.move_list@,
            crs,
            es,
            best_score as int,
            search_data.shared_data.tt.entries@,
            st,
        );
    }
    best_score
}

/// The deepest iteration a search with `limits` runs: the requested depth for a depth search
/// (at most 255), and 255 otherwise.
pub open spec fn depth_cap(limits: Limits) -> int {
    match limits {
        Limits::Depth(d) => if d <= 0 {
            0
        } else if d < 255 {
            d as int
        } else {
            255
        },
        _ => 255,
    }
}

/// The deepest iteration a search with `limits` runs.
pub fn max_search_depth(limits: Limits) -> (d: usize)
    ensures
        d == depth_cap(limits),
{
    match limits {
        Limits::Depth(depth) => if depth <= 0 {
            0
        } else if depth < 255 {
            depth as usize
        } else {
            255
        },
        _ => 255,
    }
}

/// Every entry of `a` is an entry of `b`.
pub open spec fn entries_within(a: Seq<MoveEntry>, b: Seq<MoveEntry>) -> bool {
    forall|i: int| 0 <= i < a.len() ==> #[trigger] b.contains(a[i])
}

/// Starts a search: the legal moves of the root (none when the position cannot be searched),
/// a new generation of the table, and the first of the moves as the best move so far.
pub fn begin_search(search_data: &mut SearchData) -> (moves: MoveList)
    requires
        old(search_data).ready(),
    ensures
        final(search_data).ready(),
        final(search_data).board == old(search_data).board,
        final(search_data).completed_depth == old(search_data).completed_depth,
        final(search_data).time_manager == old(search_data).time_manager,
        final(search_data).shared_data.stop == old(search_data).shared_data.stop,
        moves@.len() > 0 ==> {
            &&& old(search_data).board.gen_ready()
            &&& old(search_data).board.kings_present()
            &&& old(search_data).board.all_gen_ok(moves@)
            &&& old(search_data).board.all_legal(moves@)
            &&& final(search_data).root_move.mv == moves@[0].mv
            &&& final(search_data).shared_data.tt.age == (old(search_data).shared_data.tt.age + 1) % 32
        },
        moves@.len() == 0 ==> final(search_data).root_move.mv == Move(0),
        !(old(search_data).board.gen_ready() && old(search_data).board.kings_present()) ==> moves@.len() == 0,
        old(search_data).board.gen_ready() && old(search_data).board.kings_present() ==> {
            &&& all_owed(old(search_data).board, false, moves@)
            &&& listed_once(moves@)
            &&& owed_set(old(search_data).board).finite()
            &&& moves@.len() == owed_set(old(search_data).board).len()
            &&& final(search_data).shared_data.tt.age == (old(search_data).shared_data.tt.age + 1) % 32
        },
{
    if !search_data.board.ready_to_generate() {
        search_data.root_move.mv = Move::none();
        return MoveList::new();
    }
    let moves = search_data.board.generate_all_legal_moves(false);
    proof {
        lemma_list_counts_owed(search_data.board, moves@);
    }
    search_data.shared_data.tt.new_search();
    search_data.root_move.mv = if moves.is_empty() {
        Move::none()
    } else {
        moves.get(0).mv()
    };
    moves
}

/// Moving one entry to the front keeps the entries.
proof fn lemma_place_first_entries(s: Seq<MoveEntry>, idx: int, t: Seq<MoveEntry>)
    requires
        0 <= idx < s.len(),
        t == seq![s[idx]] + s.subrange(0, idx) + s.subrange(idx + 1, s.len() as int),
    ensures
        entries_within(t, s),
        entries_within(s, t),
        t.len() == s.len(),
{
    assert forall|i: int| 0 <= i < t.len() implies #[trigger] s.contains(t[i]) by {
        if i == 0 {
            assert(s[idx] == t[0]);
        } else if i <= idx {
            assert(t[i] == s[i - 1]);
        } else {
            assert(t[i] == s[i]);
        }
    }
    assert forall|i: int| 0 <= i < s.len() implies #[trigger] t.contains(s[i]) by {
        if i == idx {
            assert(t[0] == s[i]);
        } else if i < idx {
            assert(t[i + 1] == s[i]);
        } else {
            assert(t[i] == s[i]);
        }
    }
}

/// Plays the root move `mv`, searches the position after it to `depth - 1` plies at ply 1
/// with the window (-`Score::INF`, -`alpha`), and takes the move back. Returns the child's
/// result.
fn search_root_move(search_data: &mut SearchData, mv: Move, alpha: i32, depth: usize) -> (child: i32)
    requires
        old(search_data).ready(),
        old(search_data).board.move_ok(mv),
        -Score::INF <= alpha <= Score::INF,
        1 <= depth <= 255,
    ensures
        final(search_data).ready(),
        final(search_data).board.same_board(old(search_data).board),
        final(search_data).keeps(*old(search_data)),
        final(search_data).shared_data.tt.age == old(search_data).shared_data.tt.age,
        -SCORE_LIMIT <= child <= SCORE_LIMIT,
        root_child(
            old(search_data).board,
            old(search_data).shared_data.tt.entries@,
            old(search_data).shared_data.tt.age,
            depth as int,
            alpha as int,
            mv,
            child as int,
            final(search_data).shared_data.tt.entries@,
            final(search_data).stops_seen() > old(search_data).stops_seen(),
        ),
{
    let ghost b0 = search_data.board;
    search_data.board.make_move(mv);
    let ghost b1 = search_data.board;
    let child = search::<Root>(search_data, -Score::INF, -alpha, (depth - 1) as i32, 1);
    proof {
        lemma_undo_applicable(b0, mv, b1);
    }
    let ghost b1_after = search_data.board;
    search_data.board.undo_move(mv);
    proof {
        lemma_child_restores(b0, mv, b1, b1_after, search_data.board);
        assert(b0.made(mv, b1));
        reveal(root_child);
    }
    child
}

/// One iteration of iterative deepening: searches every root move to `root_depth`, making
/// the best one found the best move and moving it to the front of the list, then records
/// the result in the table. Returns whether the search is over: stopped during the
/// iteration, the last iteration done, the soft time limit passed, or a stop requested.
#[verifier::rlimit(100)]
pub fn root_step(search_data: &mut SearchData, moves: &mut MoveList, root_depth: usize, max_depth: usize) -> (finished: bool)
    requires
        old(search_data).ready(),
        1 <= root_depth <= max_depth <= 255,
        old(moves)@.len() > 0 ==> old(search_data).board.gen_ready() && old(search_data).board.kings_present(),
        old(search_data).board.all_gen_ok(old(moves)@),
        old(moves)@.len() > 0 ==> exists|i: int| 0 <= i < old(moves)@.len() && #[trigger] old(moves)@[i].mv == old(search_data).root_move.mv,
    ensures
        final(search_data).ready(),
        final(search_data).board.same_board(old(search_data).board),
        final(search_data).time_manager == old(search_data).time_manager,
        final(search_data).shared_data.stop == old(search_data).shared_data.stop,
        final(search_data).stops_seen() >= old(search_data).stops_seen(),
        old(search_data).board.all_gen_ok(final(moves)@),
        entries_within(final(moves)@, old(moves)@),
        entries_within(old(moves)@, final(moves)@),
        final(moves)@.len() == old(moves)@.len(),
        old(moves)@.len() > 0 ==> exists|i: int| 0 <= i < final(moves)@.len() && #[trigger] final(moves)@[i].mv == final(search_data).root_move.mv,
        !finished ==> final(search_data).completed_depth == root_depth,
        root_depth == max_depth ==> finished,
        old(moves)@.len() == 0 ==> final(search_data).completed_depth == root_depth,
        final(search_data).completed_depth == old(search_data).completed_depth || final(search_data).completed_depth == root_depth,
        final(search_data).shared_data.tt.age == old(search_data).shared_data.tt.age,
        exists|rs: Seq<Option<int>>, es: Seq<Seq<u64>>|
            #![trigger root_fold(rs), es.len()]
            {
                &&& es[0] == old(search_data).shared_data.tt.entries@
                &&& root_results(
                    old(search_data).board,
                    old(moves)@,
                    root_depth as int,
                    old(search_data).shared_data.tt.age,
                    rs,
                    es,
                    final(search_data).stops_seen() > old(search_data).stops_seen(),
                )
                &&& final(search_data).completed_depth != old(search_data).completed_depth ==> final(search_data).shared_data.tt.entries@ == store_spec(
                    es.last(),
                    old(search_data).shared_data.tt.age,
                    old(search_data).board.board_state.hash_keys.zob,
                    final(search_data).root_move.mv,
                    root_depth as int,
                    root_fold(rs),
                    Bound::Exact,
                    0,
                )
                &&& rs.len() < old(moves)@.len() ==> final(search_data).stops_seen() > old(search_data).stops_seen() || (
                old(search_data).board.move_ok(old(moves)@[rs.len() as int].mv) && exists|v: int, e2: Seq<u64>|
                    stop_like(-v) && #[trigger] root_child(
                    old(search_data).board,
                    es.last(),
                    old(search_data).shared_data.tt.age,
                    root_depth as int,
                    root_fold(rs),
                    old(moves)@[rs.len() as int].mv,
                    v,
                    e2,
                    false,
                ))
                &&& root_outcome(old(moves)@, rs, old(search_data).root_move, final(search_data).root_move, final(moves)@)
                &&& final(search_data).completed_depth != old(search_data).completed_depth ==> rs.len() == old(moves)@.len()
                &&& rs.len() < old(moves)@.len() ==> finished && final(search_data).completed_depth == old(search_data).completed_depth
                &&& finished ==> root_depth >= max_depth || final(search_data).stops_seen() > old(search_data).stops_seen()
                    || rs.len() < old(moves)@.len() || exists|ns: u128| soft_due_spec(
                    old(search_data).time_manager.limits,
                    old(search_data).time_manager.soft_bound_ms,
                    final(search_data).shared_data.nodes.value(),
                    ns,
                )
            },
{
    let ghost sd0 = *search_data;
    let ghost moves0 = moves@;
    let ghost mut rs = Seq::<Option<int>>::empty();
    let ghost e0 = search_data.shared_data.tt.entries@;
    let ghost age = search_data.shared_data.tt.age;
    let ghost mut es = seq![e0];
    let ghost mut last_v: int = 0;
    let ghost mut last_e = e0;
    let mut alpha: i32 = -Score::INF;
    let beta: i32 = Score::INF;
    let mut best_score: i32 = -Score::INF;
    let snapshot: Vec<MoveEntry> = moves.moves.clone();
    proof {
        assert(snapshot@ =~= moves0);
    }
    let mut idx: usize = 0;
    let mut stopped = false;
    proof {
        reveal(root_results);
        reveal(root_outcome);
        reveal(root_list_ok);
    }
    while idx < snapshot.len() && !stopped
        invariant
            search_data.ready(),
            search_data.board.same_board(sd0.board),
            search_data.time_manager == sd0.time_manager,
            search_data.shared_data.stop == sd0.shared_data.stop,
            search_data.completed_depth == sd0.completed_depth,
            search_data.stops_seen() >= sd0.stops_seen(),
            sd0 == *old(search_data),
            moves0 == old(moves)@,
            snapshot@ == moves0,
            idx <= snapshot@.len(),
            moves@.len() == moves0.len(),
            sd0.board.all_gen_ok(moves0),
            moves0.len() > 0 ==> sd0.board.gen_ready() && sd0.board.kings_present(),
            sd0.board.wf(),
            sd0.board.material_ok(),
            root_list_ok(sd0.board, moves0, moves@, idx as int, search_data.root_move.mv),
            moves0.len() == 0 ==> !stopped,
            -Score::INF <= alpha <= Score::INF,
            -Score::INF <= best_score <= Score::INF,
            beta == Score::INF,
            1 <= root_depth <= 255,
            rs.len() == idx,
            es.len() == rs.len() + 1,
            es[0] == e0,
            e0 == old(search_data).shared_data.tt.entries@,
            age == old(search_data).shared_data.tt.age,
            search_data.shared_data.tt.age == age,
            !stopped ==> search_data.shared_data.tt.entries@ == es.last(),
            root_results(sd0.board, moves0, root_depth as int, age, rs, es, search_data.stops_seen() > sd0.stops_seen()),
            alpha == root_fold(rs),
            best_score == root_fold(rs),
            root_outcome(moves0, rs, sd0.root_move, search_data.root_move, moves@),
            stopped ==> search_data.stops_seen() > sd0.stops_seen() || (rs.len() < moves0.len() && sd0.board.move_ok(
                moves0[rs.len() as int].mv,
            ) && stop_like(-last_v) && root_child(
                sd0.board,
                es.last(),
                age,
                root_depth as int,
                root_fold(rs),
                moves0[rs.len() as int].mv,
                last_v,
                last_e,
                false,
            )),
        decreases snapshot@.len() - idx + if stopped {
            0int
        } else {
            1int
        },
    {
        let mv = snapshot[idx].mv;
        proof {
            lemma_root_list_facts(sd0.board, moves0, moves@, idx as int, search_data.root_move.mv);
        }
        assert(sd0.board.gen_ok(moves0[idx as int].mv));
        proof {
            lemma_same_board_moves(search_data.board, sd0.board, mv, search_data.board);
        }
        if !search_data.board.can_play(mv) {
            proof {
                let st = search_data.stops_seen() > sd0.stops_seen();
                lemma_root_push(sd0.board, moves0, root_depth as int, age, rs, es, None, es.last(), st, st);
                lemma_root_same(moves0, rs, None, sd0.root_move, search_data.root_move, moves@);
                lemma_root_list_next(sd0.board, moves0, moves@, idx as int, search_data.root_move.mv);
                rs = rs.push(None);
                es = es.push(es.last());
            }
            idx = idx + 1;
            continue;
        }
        let ghost bb = search_data.board;
        let ghost st = search_data.stops_seen() > sd0.stops_seen();
        let ghost sd_b = *search_data;
        let child = search_root_move(search_data, mv, alpha, root_depth);
        let ghost st2 = search_data.stops_seen() > sd0.stops_seen();
        let ghost cs = search_data.stops_seen() > sd_b.stops_seen();
        let ghost e_after = search_data.shared_data.tt.entries@;
        proof {
            lemma_root_child_transfer(bb, sd0.board, es.last(), age, root_depth as int, alpha as int, mv, child as int, e_after, cs, st2);
            lemma_root_results_weaken(sd0.board, moves0, root_depth as int, age, rs, es, st, st2);
        }
        let score = -child;
        if score >= Score::NONE || score <= -Score::NONE {
            proof {
                last_v = child as int;
                last_e = e_after;
            }
            stopped = true;
            continue;
        }
        let ghost rs_before = rs;
        proof {
            lemma_root_push(sd0.board, moves0, root_depth as int, age, rs, es, Some(score as int), e_after, st2, st2);
            rs = rs.push(Some(score as int));
            es = es.push(e_after);
        }
        let ghost old_mv = search_data.root_move.mv;
        if score > best_score {
            search_data.root_move.mv = mv;
            search_data.root_move.score = score;
            best_score = score;
            let ghost before = moves@;
            moves.place_first(idx);
            proof {
                lemma_root_place(sd0.board, moves0, before, idx as int, moves@, old_mv, search_data.root_move.mv);
                lemma_root_better(moves0, rs_before, sd0.root_move, search_data.root_move, moves@, score as int);
            }
        } else {
            proof {
                lemma_root_list_next(sd0.board, moves0, moves@, idx as int, search_data.root_move.mv);
                lemma_root_same(moves0, rs_before, Some(score as int), sd0.root_move, search_data.root_move, moves@);
            }
        }
        if score > alpha {
            alpha = score;
        }
        let ghost st3 = search_data.stops_seen() > sd0.stops_seen();
        if search_data.should_stop() {
            stopped = true;
        }
        proof {
            lemma_root_results_weaken(
                sd0.board,
                moves0,
                root_depth as int,
                age,
                rs,
                es,
                st3,
                search_data.stops_seen() > sd0.stops_seen(),
            );
        }
        idx = idx + 1;
    }
    proof {
        lemma_root_list_facts(sd0.board, moves0, moves@, idx as int, search_data.root_move.mv);
        assert(root_fold(rs) == root_fold(rs));
        assert(es.len() == es.len());
    }
    if stopped {
        return true;
    }
    let hash = search_data.board.hash();
    let root_mv = search_data.root_move.mv;
    search_data.shared_data.tt.store(hash, root_mv, root_depth as i32, best_score, Bound::Exact, 0);
    search_data.completed_depth = root_depth;
    if root_depth >= max_depth {
        return true;
    }
    if search_data.time_manager.soft_limit_exceeded(&search_data.shared_data) {
        return true;
    }
    let ghost st_end = search_data.stops_seen() > sd0.stops_seen();
    let flag = search_data.stop_flag();
    proof {
        lemma_root_results_weaken(
            sd0.board,
            moves0,
            root_depth as int,
            age,
            rs,
            es,
            st_end,
            search_data.stops_seen() > sd0.stops_seen(),
        );
        assert(root_fold(rs) == root_fold(rs));
        assert(es.len() == es.len());
    }
    flag
}

/// Moving the entry at `idx`, the root move just searched, to the front keeps the entries of
/// the list and those after `idx`, and puts that move first.
proof fn lemma_root_place(
    b: Board,
    moves0: Seq<MoveEntry>,
    before: Seq<MoveEntry>,
    idx: int,
    after: Seq<MoveEntry>,
    old_mv: Move,
    rm_mv: Move,
)
    requires
        0 <= idx < before.len(),
        after == seq![before[idx]] + before.subrange(0, idx) + before.subrange(idx + 1, before.len() as int),
        root_list_ok(b, moves0, before, idx, old_mv),
        rm_mv == moves0[idx].mv,
    ensures
        root_list_ok(b, moves0, after, idx + 1, rm_mv),
        after[0] == moves0[idx],
{
    reveal(root_list_ok);
    lemma_place_first_entries(before, idx, after);
    assert forall|i: int| 0 <= i < after.len() implies #[trigger] moves0.contains(after[i]) by {
        assert(before.contains(after[i]));
        let k = choose|k: int| 0 <= k < before.len() && before[k] == after[i];
        assert(moves0.contains(before[k]));
    }
    assert forall|i: int| 0 <= i < moves0.len() implies #[trigger] after.contains(moves0[i]) by {
        assert(before.contains(moves0[i]));
        let k = choose|k: int| 0 <= k < before.len() && before[k] == moves0[i];
        assert(after.contains(before[k]));
    }
    assert forall|i: int| 0 <= i < after.len() implies #[trigger] b.gen_ok(after[i].mv) by {
        assert(moves0.contains(after[i]));
        let k2 = choose|k2: int| 0 <= k2 < moves0.len() && moves0[k2] == after[i];
        assert(b.gen_ok(moves0[k2].mv));
    }
    assert forall|k: int| idx < k < moves0.len() implies #[trigger] after[k] == moves0[k] by {
        assert(after[k] == before[k]);
    }
    assert(after[0] == moves0[idx]);
    assert(after[0].mv == rm_mv);
}

/// The list state of the root loop: the list holds the entries of `moves0` (each playable as
/// generated), those from `idx` on in place, and, when there is any, the best move `rm_mv`.
#[verifier::opaque]
pub open spec fn root_list_ok(b: Board, moves0: Seq<MoveEntry>, moves: Seq<MoveEntry>, idx: int, rm_mv: Move) -> bool {
    &&& moves.len() == moves0.len()
    &&& entries_within(moves, moves0)
    &&& entries_within(moves0, moves)
    &&& b.all_gen_ok(moves)
    &&& b.all_gen_ok(moves0)
    &&& forall|k: int| idx <= k < moves0.len() ==> #[trigger] moves[k] == moves0[k]
    &&& moves0.len() > 0 ==> exists|i: int| 0 <= i < moves.len() && #[trigger] moves[i].mv == rm_mv
}

/// The list state carries over to the next entry when the list is left as it is.
proof fn lemma_root_list_next(b: Board, moves0: Seq<MoveEntry>, moves: Seq<MoveEntry>, idx: int, rm_mv: Move)
    requires
        root_list_ok(b, moves0, moves, idx, rm_mv),
    ensures
        root_list_ok(b, moves0, moves, idx + 1, rm_mv),
        0 <= idx < moves0.len() ==> moves[idx] == moves0[idx],
{
    reveal(root_list_ok);
}

/// What the list state says of the list.
proof fn lemma_root_list_facts(b: Board, moves0: Seq<MoveEntry>, moves: Seq<MoveEntry>, idx: int, rm_mv: Move)
    requires
        root_list_ok(b, moves0, moves, idx, rm_mv),
    ensures
        moves.len() == moves0.len(),
        entries_within(moves, moves0),
        entries_within(moves0, moves),
        b.all_gen_ok(moves),
        b.all_gen_ok(moves0),
        moves0.len() > 0 ==> exists|i: int| 0 <= i < moves.len() && #[trigger] moves[i].mv == rm_mv,
{
    reveal(root_list_ok);
}

/// A root move scoring above every earlier one becomes the best move.
proof fn lemma_root_better(
    ms: Seq<MoveEntry>,
    rs: Seq<Option<int>>,
    rm0: RootMove,
    rm: RootMove,
    ms2: Seq<MoveEntry>,
    score: int,
)
    requires
        rs.len() < ms.len(),
        score > root_fold(rs),
        rm.score == score,
        rm.mv == ms[rs.len() as int].mv,
        ms2[0] == ms[rs.len() as int],
    ensures
        root_outcome(ms, rs.push(Some(score)), rm0, rm, ms2),
{
    reveal(root_outcome);
    let rs2 = rs.push(Some(score));
    assert(rs2.drop_last() =~= rs);
    lemma_root_fold_floor(rs);
}

/// A root move that cannot be played, or scores no better than the best so far, leaves the
/// best move as it was.
proof fn lemma_root_same(
    ms: Seq<MoveEntry>,
    rs: Seq<Option<int>>,
    r: Option<int>,
    rm0: RootMove,
    rm: RootMove,
    ms2: Seq<MoveEntry>,
)
    requires
        root_outcome(ms, rs, rm0, rm, ms2),
        r is Some ==> r->0 <= root_fold(rs),
    ensures
        root_outcome(ms, rs.push(r), rm0, rm, ms2),
{
    reveal(root_outcome);
    let rs2 = rs.push(r);
    assert(rs2.drop_last() =~= rs);
}

/// The best root score is never below -`Score::INF`.
proof fn lemma_root_fold_floor(rs: Seq<Option<int>>)
    ensures
        root_fold(rs) >= -Score::INF,
    decreases rs.len(),
{
    if rs.len() > 0 {
        lemma_root_fold_floor(rs.drop_last());
    }
}

/// A root child result on a board carries over to a board with the same pieces and state,
/// and with more stops allowed.
proof fn lemma_root_child_transfer(
    bb: Board,
    b: Board,
    e: Seq<u64>,
    age: u8,
    depth: int,
    best: int,
    mv: Move,
    v: int,
    e2: Seq<u64>,
    cs: bool,
    st2: bool,
)
    requires
        bb.same_board(b),
        root_child(bb, e, age, depth, best, mv, v, e2, cs),
        cs ==> st2,
    ensures
        root_child(b, e, age, depth, best, mv, v, e2, st2),
        !cs ==> root_child(b, e, age, depth, best, mv, v, e2, false),
{
    reveal(root_child);
    let c = choose|c: Board|
        #[trigger] bb.made(mv, c) && (s_value(c, e, age, -Score::INF, -best, depth - 1, 1, true, v, e2, false) || (cs
            && s_value(c, e, age, -Score::INF, -best, depth - 1, 1, true, v, e2, true)));
    lemma_same_board_moves(bb, b, mv, c);
    assert(b.made(mv, c));
}

/// One more root move score keeps the scores in order with the list.
proof fn lemma_root_push(
    b: Board,
    ms: Seq<MoveEntry>,
    depth: int,
    age: u8,
    rs: Seq<Option<int>>,
    es: Seq<Seq<u64>>,
    r: Option<int>,
    e_next: Seq<u64>,
    stopped: bool,
    stopped2: bool,
)
    requires
        root_results(b, ms, depth, age, rs, es, stopped),
        rs.len() < ms.len(),
        stopped ==> stopped2,
        (r is None) == !b.move_ok(ms[rs.len() as int].mv),
        r is None ==> e_next == es.last(),
        r is Some ==> root_child(b, es.last(), age, depth, root_fold(rs), ms[rs.len() as int].mv, -r->0, e_next, stopped2),
    ensures
        root_results(b, ms, depth, age, rs.push(r), es.push(e_next), stopped2),
        rs.push(r).drop_last() == rs,
        rs.push(r).last() == r,
        es.push(e_next).last() == e_next,
{
    reveal(root_results);
    reveal(root_child);
    let k = rs.len() as int;
    let rs2 = rs.push(r);
    let es2 = es.push(e_next);
    assert(rs2.drop_last() =~= rs);
    assert(rs2.take(k) =~= rs);
    assert forall|i: int| 0 <= i < k implies #[trigger] rs2.take(i) == rs.take(i) && rs2[i] == rs[i] && es2[i]
        == es[i] && es2[i + 1] == es[i + 1] by {
        assert(rs2.take(i) =~= rs.take(i));
    }
    assert(es2[k] == es.last());
    assert(es2[k + 1] == e_next);
    assert forall|i: int| #![trigger rs2[i]] 0 <= i < rs2.len() implies ((rs2[i] is None) == !b.move_ok(ms[i].mv)) && (
    rs2[i] is None ==> es2[i + 1] == es2[i]) by {
        if i < k {
            assert(rs2[i] == rs[i]);
        }
    }
    assert forall|i: int|
        #![trigger rs2[i]]
        0 <= i < rs2.len() && rs2[i] is Some implies root_child(
            b,
            es2[i],
            age,
            depth,
            root_fold(rs2.take(i)),
            ms[i].mv,
            -rs2[i]->0,
            es2[i + 1],
            stopped2,
        ) by {
        if i < k {
            assert(rs[i] is Some);
            assert(root_child(b, es[i], age, depth, root_fold(rs.take(i)), ms[i].mv, -rs[i]->0, es[i + 1], stopped));
        }
    }
}

/// Root results allowed with fewer stops are allowed with more.
proof fn lemma_root_results_weaken(
    b: Board,
    ms: Seq<MoveEntry>,
    depth: int,
    age: u8,
    rs: Seq<Option<int>>,
    es: Seq<Seq<u64>>,
    stopped: bool,
    stopped2: bool,
)
    requires
        root_results(b, ms, depth, age, rs, es, stopped),
        stopped ==> stopped2,
    ensures
        root_results(b, ms, depth, age, rs, es, stopped2),
{
    reveal(root_results);
    reveal(root_child);
    assert forall|i: int|
        #![trigger rs[i]]
        0 <= i < rs.len() && rs[i] is Some implies root_child(
            b,
            es[i],
            age,
            depth,
            root_fold(rs.take(i)),
            ms[i].mv,
            -rs[i]->0,
            es[i + 1],
            stopped2,
        ) by {
        assert(root_child(b, es[i], age, depth, root_fold(rs.take(i)), ms[i].mv, -rs[i]->0, es[i + 1], stopped));
    }
}

} // verus!
