use vstd::prelude::*;
use std::time::{Duration, Instant};
use crate::search::search_types::{SearchData, SharedData};

verus! {

/// `std::time::Instant`, a reading of the monotonic clock; carried opaque.
#[verifier::external_type_specification]
#[verifier::external_body]
pub struct ExInstant(Instant);

/// `Instant::now`: a reading of the clock. Nothing is stated of it.
#[verifier::external_body]
fn instant_now() -> (t: Instant) {
    Instant::now()
}

/// `Duration::as_nanos`: the whole nanoseconds of a duration. The duration is opaque here, so
/// nothing is stated of the number.
#[verifier::external_body]
fn duration_nanos(d: &Duration) -> (n: u128) {
    d.as_nanos()
}

/// How long a search may go on.
#[derive(Clone, Copy, Debug)]
pub enum Limits {
    Infinite,
    Depth(i32),
    /// A fixed time per move, in milliseconds.
    Time(u64),
    Nodes(u64),
    Mate(u64),
    /// Time left and increment, in milliseconds.
    Fischer(u64, u64),
    /// Time left, increment and moves to the next time control.
    Cyclic(u64, u64, u64),
}

/// Milliseconds held back from every bound.
pub const TIME_OVERHEAD_MS: u64 = 1;

/// The limits of a search, its start time and its soft and hard time bounds.
pub struct TimeManager {
    pub limits: Limits,
    pub start_time: Instant,
    /// Past this, no new iteration is started (milliseconds).
    pub soft_bound_ms: u64,
    /// Past this, the search stops at once (milliseconds).
    pub hard_bound_ms: u64,
}

/// Whether `limits` lets the clock end the search.
pub open spec fn timed(limits: Limits) -> bool {
    !(limits is Infinite || limits is Depth || limits is Mate || limits is Nodes)
}

/// The decision to stop a search now: never before the first iteration finished, nor for
/// infinite, depth and mate searches; past the node limit of a node search; otherwise on every
/// 2048th node, once `elapsed_ns` reaches the hard bound.
pub open spec fn stop_due_spec(limits: Limits, hard_ms: u64, done: usize, nodes: u64, elapsed_ns: u128) -> bool {
    if done == 0 {
        false
    } else {
        match limits {
            Limits::Infinite | Limits::Depth(_) | Limits::Mate(_) => false,
            Limits::Nodes(m) => nodes > m,
            _ => nodes % 2048 == 2047 && elapsed_ns >= hard_ms * 1_000_000,
        }
    }
}

/// The decision not to start another iteration: never for infinite, depth and mate searches;
/// at the node limit of a node search; once `elapsed_ns` reaches the move time of a fixed-time
/// search, or the soft bound otherwise.
pub open spec fn soft_due_spec(limits: Limits, soft_ms: u64, nodes: u64, elapsed_ns: u128) -> bool {
    match limits {
        Limits::Infinite | Limits::Depth(_) | Limits::Mate(_) => false,
        Limits::Nodes(m) => nodes >= m,
        Limits::Time(m) => elapsed_ns >= m * 1_000_000,
        _ => elapsed_ns >= soft_ms * 1_000_000,
    }
}

impl TimeManager {
    /// A manager with the given bounds, each less the fixed overhead, starting now.
    pub fn from_bounds(limits: Limits, soft_ms: u64, hard_ms: u64) -> (t: TimeManager)
        ensures
            t.limits == limits,
            t.soft_bound_ms == if soft_ms >= TIME_OVERHEAD_MS { soft_ms - TIME_OVERHEAD_MS } else { 0 },
            t.hard_bound_ms == if hard_ms >= TIME_OVERHEAD_MS { hard_ms - TIME_OVERHEAD_MS } else { 0 },
    {
        TimeManager {
            limits,
            start_time: instant_now(),
            soft_bound_ms: soft_ms.saturating_sub(TIME_OVERHEAD_MS),
            hard_bound_ms: hard_ms.saturating_sub(TIME_OVERHEAD_MS),
        }
    }

    /// Time since the start of the search (`Instant::elapsed`). It depends on the clock;
    /// nothing is stated of it.
    #[verifier::external_body]
    pub fn elapsed(&self) -> (d: Duration) {
        self.start_time.elapsed()
    }

    /// Nanoseconds since the start of the search.
    pub fn elapsed_nanos(&self) -> (n: u128) {
        let d = self.elapsed();
        duration_nanos(&d)
    }

    /// Restarts the clock.
    pub fn reset_start(&mut self)
        ensures
            final(self).limits == old(self).limits,
            final(self).soft_bound_ms == old(self).soft_bound_ms,
            final(self).hard_bound_ms == old(self).hard_bound_ms,
    {
        self.start_time = instant_now();
    }

    /// The limits of the search.
    pub fn limits(&self) -> (l: Limits)
        ensures
            l == self.limits,
    {
        self.limits
    }

    /// Whether the search should not start another iteration, given the node count and the
    /// nanoseconds since the start (`soft_due_spec`).
    pub fn soft_due(&self, nodes: u64, elapsed_ns: u128) -> (b: bool)
        ensures
            b == soft_due_spec(self.limits, self.soft_bound_ms, nodes, elapsed_ns),
    {
        match self.limits {
            Limits::Infinite | Limits::Depth(_) | Limits::Mate(_) => false,
            Limits::Nodes(max) => nodes >= max,
            Limits::Time(max) => elapsed_ns >= (max as u128) * 1_000_000,
            _ => elapsed_ns >= (self.soft_bound_ms as u128) * 1_000_000,
        }
    }

    /// Whether the search must stop now, given the depth of the last finished iteration, the
    /// node count and the nanoseconds since the start (`stop_due_spec`).
    pub fn stop_due(&self, completed_depth: usize, nodes: u64, elapsed_ns: u128) -> (b: bool)
        ensures
            b == stop_due_spec(self.limits, self.hard_bound_ms, completed_depth, nodes, elapsed_ns),
    {
        if completed_depth == 0 {
            return false;
        }
        match self.limits {
            Limits::Infinite | Limits::Depth(_) | Limits::Mate(_) => false,
            Limits::Nodes(maximum) => nodes > maximum,
            _ => {
                assert(nodes & 2047 == nodes % 2048) by (bit_vector);
                nodes & 2047 == 2047 && elapsed_ns >= (self.hard_bound_ms as u128) * 1_000_000
            },
        }
    }

    /// Whether the search should not start another iteration: never for infinite, depth and
    /// mate searches; when the node count reaches the limit of a node search; otherwise when
    /// the clock passes the move time or the soft bound. The clock is read here and handed to
    /// `soft_due`.
    pub fn soft_limit_exceeded(&self, shared_data: &SharedData) -> (b: bool)
        ensures
            self.limits is Infinite || self.limits is Depth || self.limits is Mate ==> !b,
            self.limits is Nodes ==> b == (shared_data.nodes.value() >= self.limits->Nodes_0),
            exists|ns: u128| b == soft_due_spec(self.limits, self.soft_bound_ms, shared_data.nodes.value(), ns),
    {
        let nodes = shared_data.nodes.count();
        let clocked = match self.limits {
            Limits::Infinite | Limits::Depth(_) | Limits::Mate(_) | Limits::Nodes(_) => false,
            _ => true,
        };
        let ns = if clocked {
            self.elapsed_nanos()
        } else {
            0
        };
        self.soft_due(nodes, ns)
    }

    /// Whether the search must stop now: never before the first iteration completed, nor for
    /// infinite, depth and mate searches; past the limit of a node search; otherwise, once
    /// every 2048 nodes, when the clock passes the hard bound. The clock is read here, only
    /// when it matters, and handed to `stop_due`.
    pub fn check_time(&self, search_data: &SearchData) -> (b: bool)
        ensures
            ({
                let done = search_data.completed_depth;
                let nodes = search_data.shared_data.nodes.value();
                &&& done == 0 ==> !b
                &&& self.limits is Infinite || self.limits is Depth || self.limits is Mate ==> !b
                &&& done != 0 && self.limits is Nodes ==> b == (nodes > self.limits->Nodes_0)
                &&& done != 0 && timed(self.limits) && nodes % 2048 != 2047 ==> !b
                &&& exists|ns: u128| b == stop_due_spec(self.limits, self.hard_bound_ms, done, nodes, ns)
            }),
    {
        let nodes = search_data.shared_data.nodes.count();
        let done = search_data.completed_depth;
        let clocked = match self.limits {
            Limits::Infinite | Limits::Depth(_) | Limits::Mate(_) | Limits::Nodes(_) => false,
            _ => true,
        };
        proof {
            assert(nodes & 2047 == nodes % 2048) by (bit_vector);
        }
        let ns = if done != 0 && clocked && nodes & 2047 == 2047 {
            self.elapsed_nanos()
        } else {
            0
        };
        self.stop_due(done, nodes, ns)
    }
}

} // verus!
