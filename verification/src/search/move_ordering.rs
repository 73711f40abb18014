use vstd::prelude::*;
use crate::types::move_list::{MoveEntry, MoveList};
use crate::types::moves::Move;
use crate::board::Board;
use crate::search::search_types::SearchData;
use crate::search::see::see_spec;

verus! {

/// The ordering bonus of every capture, above any quiet move.
pub const CAPTURE_VALUE: i32 = 1_000_000;

/// The ordering score of `mv`: the table's move first, then captures by exchange value, then
/// the quiet moves.
pub open spec fn order_score(b: Board, mv: Move, tt_move: Move) -> int {
    if mv == tt_move {
        i32::MAX as int
    } else if mv.spec_is_capture() {
        CAPTURE_VALUE + see_spec(b, mv)
    } else {
        0
    }
}

/// `j` holds the first of the highest scores among the entries from `from` on.
pub open spec fn first_best(s: Seq<MoveEntry>, from: int, j: int) -> bool {
    &&& from <= j < s.len()
    &&& forall|k: int| from <= k < s.len() ==> #[trigger] s[k].ordering_score <= s[j].ordering_score
    &&& forall|k: int| from <= k < j ==> #[trigger] s[k].ordering_score < s[j].ordering_score
}

/// Hands out the moves of a list best score first, by selection: each call moves the best of
/// the remaining entries to the front of the remaining part.
pub struct OrderedMoves<'a> {
    pub move_list: &'a mut MoveList,
    pub idx: usize,
}

impl<'a> OrderedMoves<'a> {
    /// Orders `move_list`, starting with none handed out.
    pub fn new(move_list: &'a mut MoveList) -> (o: Self)
        ensures
            o.idx == 0,
            *o.move_list == *old(move_list),
            *final(move_list) == *final(o.move_list),
    {
        OrderedMoves { move_list, idx: 0 }
    }

    /// Scores every move of the list for ordering (see `order_score`).
    pub fn score_moves(&mut self, search_data: &SearchData, tt_move: Move)
        requires
            search_data.board.all_gen_ok(old(self).move_list@),
        ensures
            final(self).idx == old(self).idx,
            final(self).move_list@.len() == old(self).move_list@.len(),
            forall|i: int|
                0 <= i < old(self).move_list@.len() ==> (#[trigger] final(self).move_list@[i]).mv
                    == old(self).move_list@[i].mv && final(self).move_list@[i].ordering_score
                    == order_score(search_data.board, old(self).move_list@[i].mv, tt_move),
            forall|i: int|
                0 <= i < old(self).move_list@.len() ==> (#[trigger] final(self).move_list@[i]).ordering_score >= 0,
    {
        let len = self.move_list.len();
        let mut idx: usize = 0;
        while idx < len
            invariant
                idx <= len == self.move_list@.len() == old(self).move_list@.len(),
                self.idx == old(self).idx,
                search_data.board.all_gen_ok(old(self).move_list@),
                forall|i: int| 0 <= i < len ==> (#[trigger] self.move_list@[i]).mv == old(self).move_list@[i].mv,
                forall|i: int|
                    0 <= i < idx ==> (#[trigger] self.move_list@[i]).ordering_score == order_score(
                        search_data.board,
                        old(self).move_list@[i].mv,
                        tt_move,
                    ),
                forall|i: int| 0 <= i < idx ==> (#[trigger] self.move_list@[i]).ordering_score >= 0,
            decreases len - idx,
        {
            let mv = self.move_list.get(idx).mv();
            assert(search_data.board.gen_ok(old(self).move_list@[idx as int].mv));
            let score = if mv == tt_move {
                i32::MAX
            } else if mv.is_capture() {
                CAPTURE_VALUE + search_data.board.see(mv)
            } else {
                0
            };
            self.move_list.set_score(idx, score);
            idx = idx + 1;
        }
    }

    /// Hands out the best-scored remaining entry (the first of equals), swapping it to the
    /// front of the remaining part.
    pub fn select_next_best(&mut self) -> (e: MoveEntry)
        requires
            old(self).idx < old(self).move_list@.len(),
        ensures
            final(self).idx == old(self).idx + 1,
            exists|j: int|
                #![trigger old(self).move_list@[j]]
                first_best(old(self).move_list@, old(self).idx as int, j) && e == old(
                    self,
                ).move_list@[j] && final(self).move_list@ == old(self).move_list@.update(
                    old(self).idx as int,
                    old(self).move_list@[j],
                ).update(j, old(self).move_list@[old(self).idx as int]),
    {
        let start = self.idx;
        let len = self.move_list.len();
        let mut best_idx = start;
        let mut best_move = self.move_list.get(best_idx);
        let mut i = start + 1;
        while i < len
            invariant
                start < len == self.move_list@.len(),
                start <= best_idx < i <= len,
                best_move == self.move_list@[best_idx as int],
                self.move_list@ == old(self).move_list@,
                self.idx == start == old(self).idx,
                forall|k: int| start <= k < i ==> #[trigger] self.move_list@[k].ordering_score <= best_move.ordering_score,
                forall|k: int| start <= k < best_idx ==> #[trigger] self.move_list@[k].ordering_score < best_move.ordering_score,
            decreases len - i,
        {
            let candidate = self.move_list.get(i);
            if candidate.score() > best_move.score() {
                best_idx = i;
                best_move = candidate;
            }
            i = i + 1;
        }
        let ghost s = self.move_list@;
        self.move_list.swap(start, best_idx);
        self.idx = start + 1;
        assert(first_best(s, start as int, best_idx as int));
        best_move
    }

    /// The next entry in order of score: none once every entry was handed out, otherwise the
    /// best remaining one, as `select_next_best` hands it out.
    pub fn next(&mut self) -> (r: Option<MoveEntry>)
        ensures
            old(self).idx >= old(self).move_list@.len() ==> r is None && *final(self) == *old(self),
            old(self).idx < old(self).move_list@.len() ==> r is Some && final(self).idx == old(self).idx + 1
                && exists|j: int|
                #![trigger old(self).move_list@[j]]
                first_best(old(self).move_list@, old(self).idx as int, j) && r == Some(old(
                    self,
                ).move_list@[j]) && final(self).move_list@ == old(self).move_list@.update(
                    old(self).idx as int,
                    old(self).move_list@[j],
                ).update(j, old(self).move_list@[old(self).idx as int]),
    {
        if self.idx >= self.move_list.len() {
            return None;
        }
        Some(self.select_next_best())
    }
}

} // verus!
