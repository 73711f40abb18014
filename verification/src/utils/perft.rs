use vstd::prelude::*;
use crate::board::Board;
use crate::board::generate_moves::{owed_set, lemma_list_counts_owed, triples};
use crate::types::move_list::MoveEntry;
use crate::types::moves::Move;
use crate::board::make_move::{lemma_undo_applicable, lemma_same_board_moves};
use crate::search::qsearch::lemma_child_restores;

verus! {

/// A sum of counts, wrapping at 2 to the 64 as a `u64` counter does.
pub open spec fn wrapped_sum(cs: Seq<int>) -> int
    decreases cs.len(),
{
    if cs.len() == 0 {
        0
    } else {
        (wrapped_sum(cs.drop_last()) + cs.last()) % 0x1_0000_0000_0000_0000
    }
}

/// The origin, destination and flag code of each move.
pub open spec fn move_triples(ms: Seq<Move>) -> Seq<(int, int, int)> {
    ms.map_values(|m: Move| (m.from_idx(), m.to_idx(), m.code()))
}

/// `n` counts the leaves of the move tree of `b` that are `d` plies deep (wrapping at 2 to the
/// 64): 1 at depth 0; 0 where moves cannot be generated; else, over the moves generating all
/// moves owes, each once, the count of the position each playable move leads to, one ply less
/// deep, and 0 for a move that cannot be played.
pub open spec fn perft_count(b: Board, d: int, n: int) -> bool
    decreases d,
{
    if d <= 0 {
        n == 1
    } else if !(b.gen_ready() && b.kings_present()) {
        n == 0
    } else {
        exists|ms: Seq<Move>, cs: Seq<int>|
            #![trigger move_triples(ms), wrapped_sum(cs)]
            {
                &&& ms.len() == cs.len()
                &&& move_triples(ms).no_duplicates()
                &&& move_triples(ms).to_set() == owed_set(b)
                &&& n == wrapped_sum(cs)
                &&& forall|i: int|
                    #![trigger ms[i]]
                    0 <= i < ms.len() ==> if b.move_ok(ms[i]) {
                        exists|c: Board| b.made(ms[i], c) && perft_count(c, d - 1, cs[i])
                    } else {
                        cs[i] == 0
                    }
            }
    }
}

/// What the move `m` adds to the count of `b` at depth `d`: the count one ply less deep of the
/// position it leads to, or 0 when it cannot be played.
pub open spec fn child_count(b: Board, m: Move, d: int, x: int) -> bool {
    if b.move_ok(m) {
        exists|c: Board| b.made(m, c) && perft_count(c, d - 1, x)
    } else {
        x == 0
    }
}

/// The count of a position that moves can be generated from, from its moves and theirs.
proof fn lemma_perft_count_intro(b: Board, d: int, n: int, ms: Seq<Move>, cs: Seq<int>)
    requires
        d > 0,
        b.gen_ready(),
        b.kings_present(),
        ms.len() == cs.len(),
        move_triples(ms).no_duplicates(),
        move_triples(ms).to_set() == owed_set(b),
        n == wrapped_sum(cs),
        forall|i: int| 0 <= i < ms.len() ==> #[trigger] child_count(b, ms[i], d, cs[i]),
    ensures
        perft_count(b, d, n),
{
    assert forall|i: int|
        #![trigger ms[i]]
        0 <= i < ms.len() implies if b.move_ok(ms[i]) {
            exists|c: Board| b.made(ms[i], c) && perft_count(c, d - 1, cs[i])
        } else {
            cs[i] == 0
        } by {
        assert(child_count(b, ms[i], d, cs[i]));
    }
    assert(move_triples(ms) == move_triples(ms));
    assert(wrapped_sum(cs) == wrapped_sum(cs));
}

/// `n` counts what `perft_bulk` counts: as `perft_count`, but one ply deep the number of
/// moves generating all moves owes, playable or not.
pub open spec fn perft_bulk_count(b: Board, d: int, n: int) -> bool
    decreases d,
{
    if d <= 0 {
        n == 1
    } else if !(b.gen_ready() && b.kings_present()) {
        n == 0
    } else if d == 1 {
        owed_set(b).finite() && n == owed_set(b).len()
    } else {
        exists|ms: Seq<Move>, cs: Seq<int>|
            #![trigger move_triples(ms), wrapped_sum(cs)]
            {
                &&& ms.len() == cs.len()
                &&& move_triples(ms).no_duplicates()
                &&& move_triples(ms).to_set() == owed_set(b)
                &&& n == wrapped_sum(cs)
                &&& forall|i: int|
                    #![trigger ms[i]]
                    0 <= i < ms.len() ==> if b.move_ok(ms[i]) {
                        exists|c: Board| b.made(ms[i], c) && perft_bulk_count(c, d - 1, cs[i])
                    } else {
                        cs[i] == 0
                    }
            }
    }
}

/// What the move `m` adds to the bulk count of `b` at depth `d`.
pub open spec fn bulk_child_count(b: Board, m: Move, d: int, x: int) -> bool {
    if b.move_ok(m) {
        exists|c: Board| b.made(m, c) && perft_bulk_count(c, d - 1, x)
    } else {
        x == 0
    }
}

/// The bulk count of a position two or more plies deep, from its moves and theirs.
proof fn lemma_bulk_count_intro(b: Board, d: int, n: int, ms: Seq<Move>, cs: Seq<int>)
    requires
        d > 1,
        b.gen_ready(),
        b.kings_present(),
        ms.len() == cs.len(),
        move_triples(ms).no_duplicates(),
        move_triples(ms).to_set() == owed_set(b),
        n == wrapped_sum(cs),
        forall|i: int| 0 <= i < ms.len() ==> #[trigger] bulk_child_count(b, ms[i], d, cs[i]),
    ensures
        perft_bulk_count(b, d, n),
{
    assert forall|i: int|
        #![trigger ms[i]]
        0 <= i < ms.len() implies if b.move_ok(ms[i]) {
            exists|c: Board| b.made(ms[i], c) && perft_bulk_count(c, d - 1, cs[i])
        } else {
            cs[i] == 0
        } by {
        assert(bulk_child_count(b, ms[i], d, cs[i]));
    }
    assert(move_triples(ms) == move_triples(ms));
    assert(wrapped_sum(cs) == wrapped_sum(cs));
}

impl Board {
    /// Counts the leaves of the move tree `depth` plies deep, counting the last ply by the
    /// length of its move list: one ply deep, the number of moves generating all moves owes
    /// (`perft_bulk_count`). A position that move generation cannot work on counts 0.
    pub fn perft_bulk(&mut self, depth: usize) -> (nodes: u64)
        requires
            old(self).wf(),
            old(self).material_ok(),
        ensures
            final(self).same_board(*old(self)),
            final(self).wf(),
            final(self).material_ok(),
            depth == 0 ==> nodes == 1,
            depth > 0 && !(old(self).gen_ready() && old(self).kings_present()) ==> nodes == 0,
            depth == 1 && old(self).gen_ready() && old(self).kings_present() ==> owed_set(*old(self)).finite()
                && nodes == owed_set(*old(self)).len(),
            perft_bulk_count(*old(self), depth as int, nodes as int),
        decreases depth,
    {
        if depth == 0 {
            return 1;
        }
        if !self.ready_to_generate() {
            return 0;
        }
        let ml = self.generate_all_legal_moves(false);
        if depth == 1 {
            proof {
                lemma_list_counts_owed(*self, ml@);
            }
            return ml.len() as u64;
        }
        let mut nodes: u64 = 0;
        let mut i: usize = 0;
        let ghost b0 = *self;
        let ghost ms: Seq<Move> = Seq::empty();
        let ghost cs: Seq<int> = Seq::empty();
        while i < ml.len()
            invariant
                ms.len() == i,
                cs.len() == i,
                forall|k: int| 0 <= k < i ==> #[trigger] ms[k] == ml@[k].mv,
                nodes == wrapped_sum(cs),
                forall|k: int| 0 <= k < i ==> #[trigger] bulk_child_count(b0, ms[k], depth as int, cs[k]),
                i <= ml@.len(),
                self.same_board(b0),
                self.wf(),
                self.material_ok(),
                b0 == *old(self),
                b0.wf(),
                b0.material_ok(),
                b0.gen_ready(),
                b0.kings_present(),
                b0.all_gen_ok(ml@),
                depth >= 2,
            decreases ml@.len() - i,
        {
            let mv = ml.get(i).mv();
            assert(b0.gen_ok(ml@[i as int].mv));
            proof {
                lemma_same_board_moves(*self, b0, mv, *self);
            }
            let ghost cs0 = cs;
            if self.can_play(mv) {
                let ghost before = *self;
                self.make_move(mv);
                let ghost after = *self;
                let count = self.perft_bulk(depth - 1);
                proof {
                    lemma_undo_applicable(before, mv, after);
                }
                let ghost after_child = *self;
                self.undo_move(mv);
                proof {
                    lemma_child_restores(before, mv, after, after_child, *self);
                }
                nodes = nodes.wrapping_add(count);
                proof {
                    lemma_same_board_moves(before, b0, mv, after);
                    assert(b0.made(mv, after));
                    assert(bulk_child_count(b0, mv, depth as int, count as int));
                    cs = cs.push(count as int);
                    assert(cs.drop_last() == cs0);
                }
            } else {
                proof {
                    assert(bulk_child_count(b0, mv, depth as int, 0));
                    cs = cs.push(0);
                    assert(cs.drop_last() == cs0);
                }
            }
            proof {
                ms = ms.push(mv);
                assert forall|k: int| 0 <= k < i + 1 implies #[trigger] bulk_child_count(b0, ms[k], depth as int, cs[k]) by {
                    if k < i {
                        assert(ms[k] == ms.drop_last()[k]);
                        assert(cs[k] == cs0[k]);
                    }
                }
            }
            i = i + 1;
        }
        proof {
            lemma_list_counts_owed(b0, ml@);
            assert(ms =~= ml@.map_values(|e: MoveEntry| e.mv));
            assert(move_triples(ms) =~= triples(ml@));
            lemma_bulk_count_intro(b0, depth as int, nodes as int, ms, cs);
        }
        nodes
    }

    /// Counts the leaves of the move tree `depth` plies deep (`perft_count`).
    pub fn perft(&mut self, depth: usize) -> (nodes: u64)
        requires
            old(self).wf(),
            old(self).material_ok(),
        ensures
            final(self).same_board(*old(self)),
            final(self).wf(),
            final(self).material_ok(),
            depth == 0 ==> nodes == 1,
            depth > 0 && !(old(self).gen_ready() && old(self).kings_present()) ==> nodes == 0,
            perft_count(*old(self), depth as int, nodes as int),
        decreases depth,
    {
        if depth == 0 {
            return 1;
        }
        if !self.ready_to_generate() {
            return 0;
        }
        let ml = self.generate_all_legal_moves(false);
        let mut nodes: u64 = 0;
        let mut i: usize = 0;
        let ghost b0 = *self;
        let ghost ms: Seq<Move> = Seq::empty();
        let ghost cs: Seq<int> = Seq::empty();
        while i < ml.len()
            invariant
                ms.len() == i,
                cs.len() == i,
                forall|k: int| 0 <= k < i ==> #[trigger] ms[k] == ml@[k].mv,
                nodes == wrapped_sum(cs),
                forall|k: int| 0 <= k < i ==> #[trigger] child_count(b0, ms[k], depth as int, cs[k]),
                i <= ml@.len(),
                self.same_board(b0),
                self.wf(),
                self.material_ok(),
                b0 == *old(self),
                b0.wf(),
                b0.material_ok(),
                b0.gen_ready(),
                b0.kings_present(),
                b0.all_gen_ok(ml@),
                depth >= 1,
            decreases ml@.len() - i,
        {
            let mv = ml.get(i).mv();
            assert(b0.gen_ok(ml@[i as int].mv));
            proof {
                lemma_same_board_moves(*self, b0, mv, *self);
            }
            let ghost cs0 = cs;
            let ghost nodes0 = nodes;
            if self.can_play(mv) {
                let ghost before = *self;
                self.make_move(mv);
                let ghost after = *self;
                let count = self.perft(depth - 1);
                proof {
                    lemma_undo_applicable(before, mv, after);
                }
                let ghost after_child = *self;
                self.undo_move(mv);
                proof {
                    lemma_child_restores(before, mv, after, after_child, *self);
                }
                nodes = nodes.wrapping_add(count);
                proof {
                    lemma_same_board_moves(before, b0, mv, after);
                    assert(b0.made(mv, after));
                    assert(child_count(b0, mv, depth as int, count as int));
                    cs = cs.push(count as int);
                    assert(cs.drop_last() == cs0);
                }
            } else {
                proof {
                    assert(child_count(b0, mv, depth as int, 0));
                    cs = cs.push(0);
                    assert(cs.drop_last() == cs0);
                }
            }
            proof {
                ms = ms.push(mv);
                assert forall|k: int| 0 <= k < i + 1 implies #[trigger] child_count(b0, ms[k], depth as int, cs[k]) by {
                    if k < i {
                        assert(ms[k] == ms.drop_last()[k]);
                        assert(cs[k] == cs0[k]);
                    }
                }
            }
            i = i + 1;
        }
        proof {
            lemma_list_counts_owed(b0, ml@);
            assert(ms =~= ml@.map_values(|e: MoveEntry| e.mv));
            assert(move_triples(ms) =~= triples(ml@));
            assert(forall|k: int| 0 <= k < ms.len() ==> #[trigger] child_count(b0, ms[k], depth as int, cs[k]));
            assert(move_triples(ms).no_duplicates());
            assert(move_triples(ms).to_set() == owed_set(b0));
            assert(nodes == wrapped_sum(cs));
            lemma_perft_count_intro(b0, depth as int, nodes as int, ms, cs);
        }
        nodes
    }
}

} // verus!
