use vstd::prelude::*;
use crate::board::Board;
use crate::board::generate_moves::{in_check_spec, no_owed_move, triples, owed_set_co, lemma_swap_keeps_triples};
use crate::search::move_ordering::{order_score, first_best};
use crate::search::qsearch::{q_value, q_fold, q_ends, stop_like};
use crate::types::move_list::MoveEntry;
use crate::types::moves::Move;
use crate::types::score::Score;
use crate::types::tt::{Bound, probe_spec, store_spec};

verus! {

/// The bound a search result `best` is stored with, against the window (`alpha`, `beta`).
pub open spec fn bound_for(best: int, alpha: int, beta: int) -> Bound {
    if best >= beta {
        Bound::Lower
    } else if best <= alpha {
        Bound::Upper
    } else {
        Bound::Exact
    }
}

/// The best move after the child results `crs` of the entries `ps`: the table's move `ttmv`
/// until a move scores above every earlier score, then the first such move of the best score.
pub open spec fn s_best_move(ttmv: Move, ps: Seq<MoveEntry>, crs: Seq<Option<int>>) -> Move
    decreases crs.len(),
{
    if crs.len() == 0 {
        ttmv
    } else {
        let prev = s_best_move(ttmv, ps, crs.drop_last());
        match crs.last() {
            Some(v) => if -v > q_fold(-Score::INF, crs.drop_last()) {
                ps[crs.len() - 1].mv
            } else {
                prev
            },
            None => prev,
        }
    }
}

/// `r` is a result of the alpha-beta search of `b` with window (`alpha`, `beta`) to `depth`
/// plies at `ply`, at a node on the principal variation when `pv`, taking the table from the
/// entries `e0` to `e1` (its age `age` stays). `stopped` allows a stop signal here or below. A
/// stop gives `Score::NONE`; a draw 0; depth 0 the quiescence value; off the principal
/// variation a usable table entry its score; a position that cannot be searched its
/// evaluation; one with no legal move mated at `ply` in check and 0 otherwise; else the move
/// loop `s_run` decides.
pub open spec fn s_value(
    b: Board,
    e0: Seq<u64>,
    age: u8,
    alpha: int,
    beta: int,
    depth: int,
    ply: int,
    pv: bool,
    r: int,
    e1: Seq<u64>,
    stopped: bool,
) -> bool
    decreases depth, 2int,
{
    if stopped && r == Score::NONE && e1 == e0 {
        true
    } else if b.draw_spec() {
        r == 0 && e1 == e0
    } else if depth <= 0 {
        e1 == e0 && q_value(b, alpha, beta, ply, r, stopped)
    } else if !pv && probe_spec(e0, b.board_state.hash_keys.zob, depth, alpha, beta, ply).score is Some {
        r == probe_spec(e0, b.board_state.hash_keys.zob, depth, alpha, beta, ply).score->0 && e1 == e0
    } else if !(b.gen_ready() && b.kings_present()) {
        r == b.material_eval() && e1 == e0
    } else if no_owed_move(b) {
        e1 == e0 && r == if in_check_spec(b) {
            ply - Score::MATE
        } else {
            0
        }
    } else {
        exists|ps: Seq<MoveEntry>, crs: Seq<Option<int>>, es: Seq<Seq<u64>>|
            #![trigger triples(ps), crs.len(), es.len()]
            s_run(
                b,
                age,
                alpha,
                beta,
                depth,
                ply,
                probe_spec(e0, b.board_state.hash_keys.zob, depth, alpha, beta, ply).best_move,
                ps,
                crs,
                es,
                r,
                e1,
                stopped,
            ) && es[0] == e0
    }
}

/// `v` is a result of searching `mv` from `b`: of the search, off the principal variation, of
/// the position after it one ply less deep and one ply further, with the window (-`beta`,
/// -`lower`), taking the table from `e` to `e2`.
pub open spec fn s_child(
    b: Board,
    e: Seq<u64>,
    age: u8,
    beta: int,
    depth: int,
    ply: int,
    lower: int,
    mv: Move,
    v: int,
    e2: Seq<u64>,
    stopped: bool,
) -> bool
    decreases depth, 0int,
{
    if depth > 0 {
        exists|c: Board|
            #[trigger] b.made(mv, c) && (s_value(c, e, age, -beta, -lower, depth - 1, ply + 1, false, v, e2, false) || (
            stopped && s_value(c, e, age, -beta, -lower, depth - 1, ply + 1, false, v, e2, true)))
    } else {
        false
    }
}

/// The move loop of the search over `ps` (every legal move once, scored for ordering with the
/// table's move `ttmv` first), of which the first `crs.len()` were taken in turn, each a
/// best-scored one of those left: `None` for a move that cannot be played, otherwise the
/// child's result with the window (-`beta`, -bound), the table going through `es`. The loop
/// ends at a stop signal, which is returned with the table as it is, when the bound reaches
/// `beta`, or when every move was taken; then the best score (-`Score::INF` at the least) is
/// returned and stored with the best move and its bound.
pub open spec fn s_run(
    b: Board,
    age: u8,
    alpha: int,
    beta: int,
    depth: int,
    ply: int,
    ttmv: Move,
    ps: Seq<MoveEntry>,
    crs: Seq<Option<int>>,
    es: Seq<Seq<u64>>,
    r: int,
    e1: Seq<u64>,
    stopped: bool,
) -> bool
    decreases depth, 1int,
{
    if depth > 0 {
        &&& triples(ps).no_duplicates()
        &&& triples(ps).to_set() == owed_set_co(b, false)
        &&& forall|i: int| 0 <= i < ps.len() ==> (#[trigger] ps[i]).ordering_score == order_score(b, ps[i].mv, ttmv)
        &&& crs.len() <= ps.len()
        &&& es.len() == crs.len() + 1
        &&& forall|i: int, j: int|
            #![trigger ps[i], ps[j]]
            0 <= i < crs.len() && i < j < ps.len() ==> ps[i].ordering_score >= ps[j].ordering_score
        &&& forall|i: int| #![trigger crs[i]] 0 <= i < crs.len() ==> ((crs[i] is None) == !b.move_ok(ps[i].mv))
        &&& forall|i: int| #![trigger crs[i]] 0 <= i < crs.len() && crs[i] is None ==> es[i + 1] == es[i]
        &&& forall|i: int|
            #![trigger crs[i]]
            0 <= i < crs.len() && crs[i] is Some ==> s_child(
                b,
                es[i],
                age,
                beta,
                depth,
                ply,
                q_fold(alpha, crs.take(i)),
                ps[i].mv,
                crs[i]->0,
                es[i + 1],
                stopped,
            )
        &&& forall|i: int| #![trigger crs[i]] 0 <= i < crs.len() - 1 ==> !q_ends(crs[i], q_fold(alpha, crs.take(i + 1)), beta)
        &&& if crs.len() > 0 && q_ends(crs.last(), q_fold(alpha, crs), beta) && stop_like(-crs.last()->0) {
            r == -crs.last()->0 && e1 == es.last()
        } else if (crs.len() > 0 && q_ends(crs.last(), q_fold(alpha, crs), beta)) || crs.len() == ps.len() {
            &&& r == q_fold(-Score::INF, crs)
            &&& e1 == store_spec(
                es.last(),
                age,
                b.board_state.hash_keys.zob,
                s_best_move(ttmv, ps, crs),
                depth,
                r,
                bound_for(r, alpha, beta),
                ply,
            )
        } else {
            false
        }
    } else {
        false
    }
}

/// The first `crs.len()` moves of `ps` were taken as `s_run` says, the table going through
/// `es`, and none but possibly the last ended the loop.
#[verifier::opaque]
pub open spec fn s_steps(
    b: Board,
    age: u8,
    alpha: int,
    beta: int,
    depth: int,
    ply: int,
    ttmv: Move,
    ps: Seq<MoveEntry>,
    crs: Seq<Option<int>>,
    es: Seq<Seq<u64>>,
    stopped: bool,
) -> bool {
    &&& depth > 0
    &&& triples(ps).no_duplicates()
    &&& triples(ps).to_set() == owed_set_co(b, false)
    &&& forall|i: int| 0 <= i < ps.len() ==> (#[trigger] ps[i]).ordering_score == order_score(b, ps[i].mv, ttmv)
    &&& crs.len() <= ps.len()
    &&& es.len() == crs.len() + 1
    &&& forall|i: int, j: int|
        #![trigger ps[i], ps[j]]
        0 <= i < crs.len() && i < j < ps.len() ==> ps[i].ordering_score >= ps[j].ordering_score
    &&& forall|i: int| #![trigger crs[i]] 0 <= i < crs.len() ==> ((crs[i] is None) == !b.move_ok(ps[i].mv))
    &&& forall|i: int| #![trigger crs[i]] 0 <= i < crs.len() && crs[i] is None ==> es[i + 1] == es[i]
    &&& forall|i: int|
        #![trigger crs[i]]
        0 <= i < crs.len() && crs[i] is Some ==> s_child(
            b,
            es[i],
            age,
            beta,
            depth,
            ply,
            q_fold(alpha, crs.take(i)),
            ps[i].mv,
            crs[i]->0,
            es[i + 1],
            stopped,
        )
    &&& forall|i: int| #![trigger crs[i]] 0 <= i < crs.len() - 1 ==> !q_ends(crs[i], q_fold(alpha, crs.take(i + 1)), beta)
}

/// Before any move is taken, the loop state holds of the scored moves.
pub proof fn lemma_s_start(
    b: Board,
    age: u8,
    alpha: int,
    beta: int,
    depth: int,
    ply: int,
    ttmv: Move,
    ps: Seq<MoveEntry>,
    e0: Seq<u64>,
    stopped: bool,
)
    requires
        depth > 0,
        triples(ps).no_duplicates(),
        triples(ps).to_set() == owed_set_co(b, false),
        forall|i: int| 0 <= i < ps.len() ==> (#[trigger] ps[i]).ordering_score == order_score(b, ps[i].mv, ttmv),
    ensures
        s_steps(b, age, alpha, beta, depth, ply, ttmv, ps, Seq::<Option<int>>::empty(), seq![e0], stopped),
{
    reveal(s_steps);
}

/// Taking a best-scored remaining move to the front of the rest keeps the loop state, and puts
/// there a move scored at least as high as every later one.
pub proof fn lemma_s_select(
    b: Board,
    age: u8,
    alpha: int,
    beta: int,
    depth: int,
    ply: int,
    ttmv: Move,
    ps: Seq<MoveEntry>,
    crs: Seq<Option<int>>,
    es: Seq<Seq<u64>>,
    stopped: bool,
    j: int,
)
    requires
        s_steps(b, age, alpha, beta, depth, ply, ttmv, ps, crs, es, stopped),
        crs.len() < ps.len(),
        first_best(ps, crs.len() as int, j),
    ensures
        ({
            let k = crs.len() as int;
            let ps2 = ps.update(k, ps[j]).update(j, ps[k]);
            &&& s_steps(b, age, alpha, beta, depth, ply, ttmv, ps2, crs, es, stopped)
            &&& forall|m: int| k < m < ps2.len() ==> #[trigger] ps2[m].ordering_score <= ps2[k].ordering_score
        }),
{
    reveal(s_steps);
    let k = crs.len() as int;
    let ps2 = ps.update(k, ps[j]).update(j, ps[k]);
    lemma_swap_keeps_triples(ps, k, j);
    assert forall|i: int| 0 <= i < ps2.len() implies (#[trigger] ps2[i]).ordering_score == order_score(
        b,
        ps2[i].mv,
        ttmv,
    ) by {
        if i == j {
            assert(ps2[i] == ps[k]);
        } else if i == k {
        } else {
            assert(ps2[i] == ps[i]);
        }
    }
    assert forall|i: int| 0 <= i < k implies #[trigger] ps2[i] == ps[i] by {}
    assert forall|a: int, c: int|
        #![trigger ps2[a], ps2[c]]
        0 <= a < k + 1 && a < c < ps2.len() implies ps2[a].ordering_score >= ps2[c].ordering_score by {
        let vc = if c == j {
            k
        } else if c == k {
            j
        } else {
            c
        };
        assert(ps2[c] == ps[vc]);
        if a < k {
            assert(ps2[a] == ps[a]);
            assert(ps[a].ordering_score >= ps[vc].ordering_score);
        } else {
            assert(ps[vc].ordering_score <= ps[j].ordering_score);
        }
    }
    assert forall|m: int| k < m < ps2.len() implies #[trigger] ps2[m].ordering_score <= ps2[k].ordering_score by {
        assert(ps2[k] == ps2[k]);
    }
    assert forall|i: int|
        #![trigger crs[i]]
        0 <= i < crs.len() && crs[i] is Some implies s_child(
            b,
            es[i],
            age,
            beta,
            depth,
            ply,
            q_fold(alpha, crs.take(i)),
            ps2[i].mv,
            crs[i]->0,
            es[i + 1],
            stopped,
        ) by {
        assert(ps2[i] == ps[i]);
    }
    assert forall|i: int| #![trigger crs[i]] 0 <= i < crs.len() implies ((crs[i] is None) == !b.move_ok(ps2[i].mv)) by {
        assert(ps2[i] == ps[i]);
    }
}

/// A child result allowed with fewer stops is allowed with more.
pub proof fn lemma_s_child_weaken(
    b: Board,
    e: Seq<u64>,
    age: u8,
    beta: int,
    depth: int,
    ply: int,
    lower: int,
    mv: Move,
    v: int,
    e2: Seq<u64>,
    stopped: bool,
    stopped2: bool,
)
    requires
        s_child(b, e, age, beta, depth, ply, lower, mv, v, e2, stopped),
        stopped ==> stopped2,
    ensures
        s_child(b, e, age, beta, depth, ply, lower, mv, v, e2, stopped2),
{
}

/// One more taken move, with the facts `s_run` asks of it, keeps the loop state, when the move
/// before it did not end the loop.
#[verifier::spinoff_prover]
#[verifier::rlimit(60)]
pub proof fn lemma_s_push(
    b: Board,
    age: u8,
    alpha: int,
    beta: int,
    depth: int,
    ply: int,
    ttmv: Move,
    ps: Seq<MoveEntry>,
    crs: Seq<Option<int>>,
    es: Seq<Seq<u64>>,
    cr: Option<int>,
    e_next: Seq<u64>,
    stopped: bool,
    stopped2: bool,
)
    requires
        s_steps(b, age, alpha, beta, depth, ply, ttmv, ps, crs, es, stopped),
        crs.len() < ps.len(),
        stopped ==> stopped2,
        forall|m: int| crs.len() < m < ps.len() ==> #[trigger] ps[m].ordering_score <= ps[crs.len() as int].ordering_score,
        crs.len() > 0 ==> !q_ends(crs.last(), q_fold(alpha, crs), beta),
        (cr is None) == !b.move_ok(ps[crs.len() as int].mv),
        cr is None ==> e_next == es.last(),
        cr is Some ==> s_child(
            b,
            es.last(),
            age,
            beta,
            depth,
            ply,
            q_fold(alpha, crs),
            ps[crs.len() as int].mv,
            cr->0,
            e_next,
            stopped2,
        ),
    ensures
        s_steps(b, age, alpha, beta, depth, ply, ttmv, ps, crs.push(cr), es.push(e_next), stopped2),
        crs.push(cr).drop_last() == crs,
        crs.push(cr).last() == cr,
        es.push(e_next).last() == e_next,
{
    reveal(s_steps);
    let k = crs.len() as int;
    let crs2 = crs.push(cr);
    let es2 = es.push(e_next);
    assert(crs2.drop_last() =~= crs);
    assert(crs2.take(k) =~= crs);
    assert forall|i: int| 0 <= i < k implies #[trigger] crs2.take(i) == crs.take(i) && crs2.take(i + 1)
        == crs.take(i + 1) && crs2[i] == crs[i] && es2[i] == es[i] && es2[i + 1] == es[i + 1] by {
        assert(crs2.take(i) =~= crs.take(i));
        assert(crs2.take(i + 1) =~= crs.take(i + 1));
    }
    assert(es2[k] == es.last());
    assert(es2[k + 1] == e_next);
    assert forall|i: int|
        #![trigger crs2[i]]
        0 <= i < crs2.len() && crs2[i] is Some implies s_child(
            b,
            es2[i],
            age,
            beta,
            depth,
            ply,
            q_fold(alpha, crs2.take(i)),
            ps[i].mv,
            crs2[i]->0,
            es2[i + 1],
            stopped2,
        ) by {
        if i < k {
            assert(crs[i] is Some);
            lemma_s_child_weaken(
                b,
                es[i],
                age,
                beta,
                depth,
                ply,
                q_fold(alpha, crs.take(i)),
                ps[i].mv,
                crs[i]->0,
                es[i + 1],
                stopped,
                stopped2,
            );
        }
    }
    assert forall|i: int| #![trigger crs2[i]] 0 <= i < crs2.len() implies ((crs2[i] is None) == !b.move_ok(ps[i].mv))
        && (crs2[i] is None ==> es2[i + 1] == es2[i]) by {
        if i < k {
            assert(crs[i] == crs2[i]);
        }
    }
    assert forall|i: int| #![trigger crs2[i]] 0 <= i < crs2.len() - 1 implies !q_ends(
        crs2[i],
        q_fold(alpha, crs2.take(i + 1)),
        beta,
    ) by {
        if i < k - 1 {
            assert(crs[i] == crs2[i]);
        } else {
            assert(i == k - 1);
            assert(crs.take(k) =~= crs);
            assert(crs[i] == crs.last());
        }
    }
}

/// The loop state and a way the loop ended give its result.
pub proof fn lemma_s_finish(
    b: Board,
    age: u8,
    alpha: int,
    beta: int,
    depth: int,
    ply: int,
    ttmv: Move,
    ps: Seq<MoveEntry>,
    crs: Seq<Option<int>>,
    es: Seq<Seq<u64>>,
    r: int,
    e1: Seq<u64>,
    stopped: bool,
)
    requires
        s_steps(b, age, alpha, beta, depth, ply, ttmv, ps, crs, es, stopped),
        if crs.len() > 0 && q_ends(crs.last(), q_fold(alpha, crs), beta) && stop_like(-crs.last()->0) {
            r == -crs.last()->0 && e1 == es.last()
        } else if (crs.len() > 0 && q_ends(crs.last(), q_fold(alpha, crs), beta)) || crs.len() == ps.len() {
            &&& r == q_fold(-Score::INF, crs)
            &&& e1 == store_spec(
                es.last(),
                age,
                b.board_state.hash_keys.zob,
                s_best_move(ttmv, ps, crs),
                depth,
                r,
                bound_for(r, alpha, beta),
                ply,
            )
        } else {
            false
        },
    ensures
        s_run(b, age, alpha, beta, depth, ply, ttmv, ps, crs, es, r, e1, stopped),
{
    reveal(s_steps);
}

/// A loop result of a searchable position with a legal move, and no table cut-off, is its
/// search value.
pub proof fn lemma_s_value_of_run(
    b: Board,
    e0: Seq<u64>,
    age: u8,
    alpha: int,
    beta: int,
    depth: int,
    ply: int,
    pv: bool,
    ps: Seq<MoveEntry>,
    crs: Seq<Option<int>>,
    es: Seq<Seq<u64>>,
    r: int,
    e1: Seq<u64>,
    stopped: bool,
)
    requires
        !b.draw_spec(),
        depth > 0,
        !pv ==> probe_spec(e0, b.board_state.hash_keys.zob, depth, alpha, beta, ply).score is None,
        b.gen_ready(),
        b.kings_present(),
        !no_owed_move(b),
        es.len() > 0,
        es[0] == e0,
        s_run(
            b,
            age,
            alpha,
            beta,
            depth,
            ply,
            probe_spec(e0, b.board_state.hash_keys.zob, depth, alpha, beta, ply).best_move,
            ps,
            crs,
            es,
            r,
            e1,
            stopped,
        ),
    ensures
        s_value(b, e0, age, alpha, beta, depth, ply, pv, r, e1, stopped),
{
    assert(triples(ps) == triples(ps));
}

/// The best move depends only on the moves already taken.
pub proof fn lemma_s_best_move_prefix(ttmv: Move, ps: Seq<MoveEntry>, ps2: Seq<MoveEntry>, crs: Seq<Option<int>>)
    requires
        crs.len() <= ps.len(),
        ps2.len() == ps.len(),
        forall|i: int| 0 <= i < crs.len() ==> #[trigger] ps2[i] == ps[i],
    ensures
        s_best_move(ttmv, ps, crs) == s_best_move(ttmv, ps2, crs),
    decreases crs.len(),
{
    if crs.len() > 0 {
        lemma_s_best_move_prefix(ttmv, ps, ps2, crs.drop_last());
        assert(ps2[crs.len() - 1] == ps[crs.len() - 1]);
    }
}

} // verus!
