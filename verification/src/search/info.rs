use vstd::prelude::*;
use crate::search::search_types::SearchData;
use crate::types::score::{Score, mate_moves};
use crate::types::tt::hashfull_spec;

verus! {

/// The digit `d` (0 to 9) as a character.
pub open spec fn digit_char(d: int) -> char {
    (48 + d) as char
}

/// `n` written in decimal, without leading zeros.
pub open spec fn decimal(n: nat) -> Seq<char>
    decreases n,
{
    if n < 10 {
        seq![digit_char(n as int)]
    } else {
        decimal(n / 10).push(digit_char((n % 10) as int))
    }
}

/// `v` written in decimal, with a minus sign when negative.
pub open spec fn signed_decimal(v: int) -> Seq<char> {
    if v < 0 {
        seq!['-'] + decimal((-v) as nat)
    } else {
        decimal(v as nat)
    }
}

/// Nodes per second from a node count and the microseconds taken (at least one).
pub open spec fn nodes_per_second(nodes: int, micros: int) -> int {
    nodes * 1_000_000 / (if micros >= 1 { micros } else { 1 })
}

/// The score part of an info line: moves to mate for a mate score, else centipawns.
pub open spec fn score_text(score: int) -> Seq<char> {
    if (if score >= 0 { score } else { -score }) >= Score::MATE_IN_MAX {
        "score mate "@ + signed_decimal(mate_moves(score)) + " "@
    } else {
        "score cp "@ + signed_decimal(score) + " "@
    }
}

/// The `info` line of an iteration: depth, score, nodes, time in milliseconds, nodes per
/// second and how full the table is, each followed by a space.
pub open spec fn info_text(depth: nat, score: int, nodes: nat, time_ms: nat, micros: nat, hashfull: nat) -> Seq<char> {
    "info depth "@ + decimal(depth) + " "@ + score_text(score) + "nodes "@ + decimal(nodes) + " "@
        + "time "@ + decimal(time_ms) + " "@ + "nps "@ + decimal(
        nodes_per_second(nodes as int, micros as int) as nat,
    ) + " "@ + "hashfull "@ + decimal(hashfull) + " "@
}

/// Appends the digit `d`.
fn append_digit(out: &mut String, d: u8)
    requires
        d < 10,
    ensures
        final(out)@ == old(out)@ + seq![digit_char(d as int)],
{
    proof {
        reveal_strlit("0");
        reveal_strlit("1");
        reveal_strlit("2");
        reveal_strlit("3");
        reveal_strlit("4");
        reveal_strlit("5");
        reveal_strlit("6");
        reveal_strlit("7");
        reveal_strlit("8");
        reveal_strlit("9");
    }
    let text = if d == 0 {
        "0"
    } else if d == 1 {
        "1"
    } else if d == 2 {
        "2"
    } else if d == 3 {
        "3"
    } else if d == 4 {
        "4"
    } else if d == 5 {
        "5"
    } else if d == 6 {
        "6"
    } else if d == 7 {
        "7"
    } else if d == 8 {
        "8"
    } else {
        "9"
    };
    out.append(text);
    assert(final(out)@ =~= old(out)@ + seq![digit_char(d as int)]);
}

/// Appends `n` in decimal.
fn append_decimal(out: &mut String, n: u128)
    ensures
        final(out)@ == old(out)@ + decimal(n as nat),
    decreases n,
{
    if n >= 10 {
        append_decimal(out, n / 10);
    }
    append_digit(out, (n % 10) as u8);
    assert(final(out)@ =~= old(out)@ + decimal(n as nat));
}

/// Appends `v` in decimal, with a minus sign when negative.
fn append_signed(out: &mut String, v: i32)
    ensures
        final(out)@ == old(out)@ + signed_decimal(v as int),
{
    if v < 0 {
        proof {
            reveal_strlit("-");
        }
        out.append("-");
        let m: i64 = -(v as i64);
        append_decimal(out, m as u128);
        assert(final(out)@ =~= old(out)@ + signed_decimal(v as int));
    } else {
        append_decimal(out, v as u128);
    }
}

/// The `info` line of an iteration from its numbers: the depth, the score, the node count,
/// the milliseconds and microseconds taken, and how full the table is.
pub fn info_line(depth: usize, score: i32, nodes: u64, time_ms: u128, micros: u128, hashfull: usize) -> (s: String)
    requires
        score != i32::MIN,
    ensures
        s@ == info_text(depth as nat, score as int, nodes as nat, time_ms as nat, micros as nat, hashfull as nat),
{
    let mut out = String::from_str("info depth ");
    append_decimal(&mut out, depth as u128);
    out.append(" ");
    let a: i32 = if score >= 0 { score } else { -score };
    if a >= Score::MATE_IN_MAX {
        out.append("score mate ");
        append_signed(&mut out, Score::score_to_mate_moves(score));
    } else {
        out.append("score cp ");
        append_signed(&mut out, score);
    }
    out.append(" ");
    out.append("nodes ");
    append_decimal(&mut out, nodes as u128);
    out.append(" ");
    out.append("time ");
    append_decimal(&mut out, time_ms);
    out.append(" ");
    let per: u128 = if micros >= 1 { micros } else { 1 };
    assert((nodes as u128) * 1_000_000 <= u64::MAX as u128 * 1_000_000) by (nonlinear_arith);
    let nps: u128 = (nodes as u128) * 1_000_000 / per;
    out.append("nps ");
    append_decimal(&mut out, nps);
    out.append(" ");
    out.append("hashfull ");
    append_decimal(&mut out, hashfull as u128);
    out.append(" ");
    assert(out@ =~= info_text(depth as nat, score as int, nodes as nat, time_ms as nat, micros as nat, hashfull as nat));
    out
}

impl SearchData {
    /// The `info` line of the last finished iteration: depth, score (moves to mate for a mate
    /// score), nodes, milliseconds since the start, nodes per second and how full the table is.
    /// The times are read from the clock: nothing is stated of them.
    pub fn to_uci_info(&self) -> (s: String)
        requires
            self.shared_data.tt.wf(),
            self.root_move.score != i32::MIN,
        ensures
            exists|time_ms: nat, micros: nat|
                s@ == #[trigger] info_text(
                    self.completed_depth as nat,
                    self.root_move.score as int,
                    self.shared_data.nodes.value() as nat,
                    time_ms,
                    micros,
                    hashfull_spec(self.shared_data.tt.entries@, self.shared_data.tt.age) as nat,
                ),
    {
        let time_ms = self.elapsed_ms();
        let nodes = self.nodes();
        let micros = self.elapsed_us();
        let hashfull = self.shared_data.tt.hashfull();
        let s = info_line(self.completed_depth, self.root_move.score, nodes, time_ms, micros, hashfull);
        assert(s@ == info_text(
            self.completed_depth as nat,
            self.root_move.score as int,
            self.shared_data.nodes.value() as nat,
            time_ms as nat,
            micros as nat,
            hashfull_spec(self.shared_data.tt.entries@, self.shared_data.tt.age) as nat,
        ));
        s
    }
}

} // verus!
