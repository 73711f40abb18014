use vstd::prelude::*;
use std::sync::Arc;
use std::sync::atomic::AtomicBool;
use crate::board::Board;
use crate::board::parse::{STARTPOS, fen_error, fen_board};
use vstd::string::StringSliceAdditionalSpecFns;
use crate::time_manager::{Limits, TimeManager};
use crate::types::moves::Move;
use crate::types::score::Score;
use crate::types::tt::TranspositionTable;

verus! {

/// The best move found at the root and its score.
#[derive(Clone, Copy)]
pub struct RootMove {
    pub mv: Move,
    pub score: i32,
}

impl RootMove {
    /// No move yet, with no score.
    pub fn default() -> (r: RootMove)
        ensures
            r.mv.0 == 0,
            r.score == Score::NONE,
    {
        RootMove { mv: Move::none(), score: Score::NONE }
    }
}

/// A count of searched nodes.
pub struct Counter {
    count: u64,
}

impl Counter {
    /// The count.
    pub closed spec fn value(self) -> u64 {
        self.count
    }

    /// A count of 0.
    pub fn default() -> (c: Counter)
        ensures
            c.value() == 0,
    {
        Counter { count: 0 }
    }

    /// Adds one, wrapping at the end of the range.
    pub fn increment(&mut self)
        ensures
            final(self).value() == (old(self).value() + 1) % 0x1_0000_0000_0000_0000,
    {
        self.count = self.count.wrapping_add(1);
    }

    /// Adds `val`, wrapping at the end of the range.
    pub fn add(&mut self, val: u64)
        ensures
            final(self).value() == (old(self).value() + val) % 0x1_0000_0000_0000_0000,
    {
        self.count = self.count.wrapping_add(val);
    }

    /// The count.
    pub fn count(&self) -> (n: u64)
        ensures
            n == self.value(),
    {
        self.count
    }

    /// Sets the count back to 0.
    pub fn reset(&mut self)
        ensures
            final(self).value() == 0,
    {
        self.count = 0;
    }
}

/// What the searches of one game share: the node count, the stop request and the table.
pub struct SharedData {
    pub nodes: Counter,
    /// Set by whoever wants the running search to stop.
    pub stop: Arc<AtomicBool>,
    pub tt: TranspositionTable,
}

impl SharedData {
    /// No nodes, no stop request, and a 16 MiB table.
    pub fn new() -> (s: SharedData)
        ensures
            s.nodes.value() == 0,
            s.tt.wf(),
            s.tt.age == 0,
    {
        SharedData {
            nodes: Counter::default(),
            stop: Arc::new(AtomicBool::new(false)),
            tt: TranspositionTable::new(16),
        }
    }

    /// Whether a stop was requested. It depends on other threads: nothing is stated of it.
    pub fn stop_requested(&self) -> (b: bool) {
        self.stop.load(std::sync::atomic::Ordering::Relaxed)
    }
}

/// The state of one search: the position, the progress, the shared data and the clock.
pub struct SearchData {
    pub board: Board,
    /// The last depth whose iteration finished.
    pub completed_depth: usize,
    pub root_move: RootMove,
    pub shared_data: SharedData,
    pub time_manager: TimeManager,
    /// The stop checks of this search that answered yes.
    pub stops: StopLog,
}

/// A count of the stop checks that answered yes. Only the checks of `SearchData` add to it.
pub struct StopLog {
    count: Ghost<nat>,
}

impl StopLog {
    /// How many checks answered yes.
    pub closed spec fn value(self) -> nat {
        self.count@
    }

    /// No check yet.
    pub fn new() -> (l: StopLog)
        ensures
            l.value() == 0,
    {
        StopLog { count: Ghost(0) }
    }
}

impl SearchData {
    /// The board and the table are in order for searching.
    pub open spec fn ready(self) -> bool {
        &&& self.board.wf()
        &&& self.board.material_ok()
        &&& self.shared_data.tt.wf()
    }

    /// How many times a stop check of this search answered yes.
    pub open spec fn stops_seen(self) -> nat {
        self.stops.value()
    }

    /// A search from `old` leaves the progress, the clock and the stop flag as they were, and
    /// forgets no stop it saw.
    pub open spec fn keeps(self, old: SearchData) -> bool {
        &&& self.completed_depth == old.completed_depth
        &&& self.root_move == old.root_move
        &&& self.time_manager == old.time_manager
        &&& self.shared_data.stop == old.shared_data.stop
        &&& self.stops_seen() >= old.stops_seen()
    }

    /// Whether the search must stop now: the clock or node limit says so (`check_time`), or a
    /// stop was requested. Each yes is counted in `stops_seen`.
    pub fn should_stop(&mut self) -> (b: bool)
        ensures
            final(self).board == old(self).board,
            final(self).shared_data == old(self).shared_data,
            final(self).completed_depth == old(self).completed_depth,
            final(self).root_move == old(self).root_move,
            final(self).time_manager == old(self).time_manager,
            final(self).stops_seen() == old(self).stops_seen() + if b { 1nat } else { 0nat },
    {
        let b = self.time_manager.check_time(self) || self.shared_data.stop_requested();
        if b {
            self.stops.count = Ghost(self.stops.count@ + 1);
        }
        b
    }

    /// Whether a stop was requested (`SharedData::stop_requested`), counted in `stops_seen`
    /// when it was.
    pub fn stop_flag(&mut self) -> (b: bool)
        ensures
            final(self).board == old(self).board,
            final(self).shared_data == old(self).shared_data,
            final(self).completed_depth == old(self).completed_depth,
            final(self).root_move == old(self).root_move,
            final(self).time_manager == old(self).time_manager,
            final(self).stops_seen() == old(self).stops_seen() + if b { 1nat } else { 0nat },
    {
        let b = self.shared_data.stop_requested();
        if b {
            self.stops.count = Ghost(self.stops.count@ + 1);
        }
        b
    }

    /// A search state on the starting position, with no limits.
    pub fn new(shared: SharedData) -> (s: SearchData)
        ensures
            s.completed_depth == 0,
            s.root_move.score == Score::NONE,
            s.time_manager.limits is Infinite,
            s.shared_data == shared,
            fen_error(STARTPOS.spec_bytes()) is None ==> fen_board(STARTPOS.spec_bytes(), s.board),
    {
        SearchData {
            board: Board::startpos(),
            completed_depth: 0,
            root_move: RootMove::default(),
            shared_data: shared,
            time_manager: TimeManager::from_bounds(Limits::Infinite, u64::MAX, u64::MAX),
            stops: StopLog::new(),
        }
    }

    /// The static evaluation of the position.
    pub fn evaluate(&mut self) -> (e: i32)
        ensures
            e == old(self).board.material_eval(),
            *final(self) == *old(self),
            -422400 <= e <= 422400,
    {
        self.board.evaluate()
    }

    /// Plays `mv` on the board.
    pub fn make_move(&mut self, mv: Move)
        requires
            old(self).board.move_ok(mv),
        ensures
            old(self).board.made(mv, final(self).board),
            final(self).shared_data == old(self).shared_data,
            final(self).keeps(*old(self)),
    {
        self.board.make_move(mv);
    }

    /// Takes `mv` back on the board.
    pub fn undo_move(&mut self, mv: Move)
        requires
            old(self).board.unmove_ok(mv),
        ensures
            old(self).board.unmade(mv, final(self).board),
            final(self).shared_data == old(self).shared_data,
            final(self).keeps(*old(self)),
    {
        self.board.undo_move(mv);
    }

    /// Puts a copy of `board` in place.
    pub fn set_board(&mut self, board: &Board)
        ensures
            final(self).board.same_board(*board),
            final(self).shared_data == old(self).shared_data,
            final(self).keeps(*old(self)),
    {
        self.board = board.clone();
    }

    /// The nodes searched so far.
    pub fn nodes(&self) -> (n: u64)
        ensures
            n == self.shared_data.nodes.value(),
    {
        self.shared_data.nodes.count()
    }

    /// Restarts the clock.
    pub fn reset_clock(&mut self)
        ensures
            final(self).board == old(self).board,
            final(self).shared_data == old(self).shared_data,
            final(self).completed_depth == old(self).completed_depth,
            final(self).time_manager.limits == old(self).time_manager.limits,
    {
        self.time_manager.reset_start();
    }

    /// Milliseconds since the start of the search, as the clock says.
    pub fn elapsed_ms(&self) -> (t: u128) {
        self.time_manager.elapsed_nanos() / 1_000_000
    }

    /// Microseconds since the start of the search, as the clock says.
    pub fn elapsed_us(&self) -> (t: u128) {
        self.time_manager.elapsed_nanos() / 1_000
    }

    /// Nanoseconds since the start of the search, as the clock says.
    pub fn elapsed_ns(&self) -> (t: u128) {
        self.time_manager.elapsed_nanos()
    }
}

} // verus!
