use vstd::prelude::*;
use vstd::string::StringSliceAdditionalSpecFns;
use crate::board::parse::{field, has_field, parse_bounded, parse_number, next_field};
use crate::time_manager::Limits;
use crate::types::color::Color;
use crate::uci::{limits_spec, parse_limits, token_is};
use crate::uci::position::{find_from, copy_range, find_word};

verus! {

/// `perft`.
pub open spec fn word_perft() -> Seq<u8> {
    seq![112u8, 101, 114, 102, 116]
}

/// `bulkperft`.
pub open spec fn word_bulkperft() -> Seq<u8> {
    seq![98u8, 117, 108, 107, 112, 101, 114, 102, 116]
}

/// What a `go` command asks for.
#[derive(Clone, Copy, Debug)]
pub enum GoCommand {
    /// Count the leaf nodes of the move tree to this depth, one move at a time.
    Perft(usize),
    /// Count them with the last ply counted from the move list.
    BulkPerft(usize),
    /// Another word with `perft` in it: nothing is counted.
    OtherPerft,
    /// Search within these limits.
    Search(Limits),
}

/// The depth a counting command asks for: its second word read as a number, 4 when there is
/// none or it is not a number that fits.
pub open spec fn perft_depth(s: Seq<u8>) -> int {
    match parse_bounded(field(s, 1), usize::MAX as int) {
        Some(v) => v,
        None => 4,
    }
}

/// What the arguments `s` of a `go` command ask of the side `white` or black: a count when the
/// first word holds `perft`, otherwise a search within the limits they set.
pub open spec fn go_spec(s: Seq<u8>, white: bool) -> GoCommand {
    if has_field(s, 0) && find_from(field(s, 0), word_perft(), 0) is Some {
        if field(s, 0) == word_perft() {
            GoCommand::Perft(perft_depth(s) as usize)
        } else if field(s, 0) == word_bulkperft() {
            GoCommand::BulkPerft(perft_depth(s) as usize)
        } else {
            GoCommand::OtherPerft
        }
    } else {
        GoCommand::Search(limits_spec(s, white))
    }
}

/// Reads the arguments of a `go` command for the side `color`.
pub fn parse_go(color: Color, rest: &str) -> (g: GoCommand)
    ensures
        g == go_spec(rest.spec_bytes(), color == Color::White),
{
    let bytes = rest.as_bytes();
    let ghost s = bytes@;
    let (a0, b0) = next_field(bytes, 0);
    assert(a0 == crate::board::parse::field_start(s, 0));
    if a0 < bytes.len() {
        let first = copy_range(bytes, a0, b0);
        let perft: [u8; 5] = [112, 101, 114, 102, 116];
        let bulk: [u8; 9] = [98, 117, 108, 107, 112, 101, 114, 102, 116];
        assert(perft@ =~= word_perft());
        assert(bulk@ =~= word_bulkperft());
        assert(first@ == field(s, 0));
        if find_word(&first, &perft).is_some() {
            let (a1, b1) = next_field(bytes, b0);
            assert(a1 == crate::board::parse::field_start(s, 1));
            let depth: usize = match parse_number(bytes, a1, b1, usize::MAX as u64) {
                Some(v) => v as usize,
                None => 4,
            };
            assert(depth == perft_depth(s));
            if token_is(bytes, a0, b0, &perft) {
                return GoCommand::Perft(depth);
            } else if token_is(bytes, a0, b0, &bulk) {
                return GoCommand::BulkPerft(depth);
            } else {
                return GoCommand::OtherPerft;
            }
        }
    }
    GoCommand::Search(parse_limits(color, rest))
}

} // verus!
