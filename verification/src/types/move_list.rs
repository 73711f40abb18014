use vstd::prelude::*;
use crate::types::moves::Move;

verus! {

/// A move with the score that orders it among its siblings.
#[derive(Clone, Copy, PartialEq, Eq, Structural, Debug)]
pub struct MoveEntry {
    pub ordering_score: i32,
    pub mv: Move,
}

impl MoveEntry {
    /// The empty move with score 0.
    pub fn default() -> (e: MoveEntry)
        ensures
            e.mv.0 == 0,
            e.ordering_score == 0,
    {
        MoveEntry { mv: Move::none(), ordering_score: 0 }
    }

    /// The move.
    pub fn mv(&self) -> (m: Move)
        ensures
            m == self.mv,
    {
        self.mv
    }

    /// The ordering score.
    pub fn score(&self) -> (s: i32)
        ensures
            s == self.ordering_score,
    {
        self.ordering_score
    }
}

/// The moves of a position, in generation order, each with an ordering score.
pub struct MoveList {
    pub moves: Vec<MoveEntry>,
}

impl MoveList {
    /// The entries of the list.
    pub open spec fn view(&self) -> Seq<MoveEntry> {
        self.moves@
    }

    /// An empty list.
    pub fn new() -> (l: MoveList)
        ensures
            l@ == Seq::<MoveEntry>::empty(),
    {
        MoveList { moves: Vec::new() }
    }

    /// Whether the list has no move.
    pub fn is_empty(&self) -> (b: bool)
        ensures
            b == (self@.len() == 0),
    {
        self.moves.len() == 0
    }

    /// Number of moves.
    pub fn len(&self) -> (n: usize)
        ensures
            n == self@.len(),
    {
        self.moves.len()
    }

    /// Removes every move.
    pub fn clear(&mut self)
        ensures
            final(self)@ == Seq::<MoveEntry>::empty(),
    {
        self.moves.clear();
    }

    /// Appends `mv` with score 0.
    pub fn push(&mut self, mv: Move)
        ensures
            final(self)@ == old(self)@.push(MoveEntry { ordering_score: 0, mv }),
    {
        self.moves.push(MoveEntry { mv, ordering_score: 0 });
    }

    /// Removes and returns the last move.
    pub fn pop(&mut self) -> (m: Move)
        requires
            old(self)@.len() > 0,
        ensures
            final(self)@ == old(self)@.drop_last(),
            m == old(self)@.last().mv,
    {
        let e = self.moves.pop().unwrap();
        e.mv
    }

    /// The entry at `idx`.
    pub fn get(&self, idx: usize) -> (e: MoveEntry)
        requires
            idx < self@.len(),
        ensures
            e == self@[idx as int],
    {
        self.moves[idx]
    }

    /// Removes the move at `idx`, putting the last move in its place, and returns it.
    pub fn remove(&mut self, idx: usize) -> (m: Move)
        requires
            idx < old(self)@.len(),
        ensures
            m == old(self)@[idx as int].mv,
            final(self)@ == old(self)@.update(idx as int, old(self)@.last()).drop_last(),
    {
        let entry = self.moves[idx];
        let last = self.moves.len() - 1;
        let moved = self.moves[last];
        self.moves.set(idx, moved);
        self.moves.pop();
        entry.mv
    }

    /// Moves the entry at `idx` to the front, shifting the ones before it back by one.
    pub fn place_first(&mut self, idx: usize)
        requires
            idx < old(self)@.len(),
        ensures
            final(self)@ == seq![old(self)@[idx as int]] + old(self)@.subrange(0, idx as int)
                + old(self)@.subrange(idx as int + 1, old(self)@.len() as int),
    {
        if idx == 0 {
            assert(old(self)@ =~= seq![old(self)@[0]] + old(self)@.subrange(0, 0) + old(
                self,
            )@.subrange(1, old(self)@.len() as int));
            return;
        }
        let ghost s = self.moves@;
        let e = self.moves[idx];
        let mut i = idx;
        while i > 0
            invariant
                0 <= i <= idx < s.len(),
                self.moves@.len() == s.len(),
                forall|k: int| 0 <= k <= i ==> self.moves@[k] == s[k],
                forall|k: int| i < k <= idx ==> self.moves@[k] == s[k - 1],
                forall|k: int| idx < k < s.len() ==> self.moves@[k] == s[k],
            decreases i,
        {
            let prev = self.moves[i - 1];
            self.moves.set(i, prev);
            i = i - 1;
        }
        self.moves.set(0, e);
        assert(self.moves@ =~= seq![s[idx as int]] + s.subrange(0, idx as int) + s.subrange(
            idx as int + 1,
            s.len() as int,
        ));
    }

    /// Exchanges the entries at `idx1` and `idx2`.
    pub fn swap(&mut self, idx1: usize, idx2: usize)
        requires
            idx1 < old(self)@.len(),
            idx2 < old(self)@.len(),
        ensures
            final(self)@ == old(self)@.update(idx1 as int, old(self)@[idx2 as int]).update(
                idx2 as int,
                old(self)@[idx1 as int],
            ),
    {
        let a = self.moves[idx1];
        let b = self.moves[idx2];
        self.moves.set(idx1, b);
        self.moves.set(idx2, a);
    }

    /// Sets the ordering score of the entry at `idx`.
    pub fn set_score(&mut self, idx: usize, score: i32)
        requires
            idx < old(self)@.len(),
        ensures
            final(self)@ == old(self)@.update(
                idx as int,
                MoveEntry { ordering_score: score, mv: old(self)@[idx as int].mv },
            ),
    {
        let mv = self.moves[idx].mv;
        self.moves.set(idx, MoveEntry { ordering_score: score, mv });
    }
}

} // verus!
