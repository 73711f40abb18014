use vstd::prelude::*;
use vstd::string::StringSliceAdditionalSpecFns;
use crate::uci::token_is;
use crate::uci::position::{find_from, trimmed, copy_range, find_word, trim_copy};

verus! {

/// `name` and a space.
pub open spec fn word_name() -> Seq<u8> {
    seq![110u8, 97, 109, 101, 32]
}

/// ` value ` between spaces.
pub open spec fn word_value() -> Seq<u8> {
    seq![32u8, 118, 97, 108, 117, 101, 32]
}

/// `evalfile`, the name of the option that holds the network's file, in lower case.
pub open spec fn word_evalfile() -> Seq<u8> {
    seq![101u8, 118, 97, 108, 102, 105, 108, 101]
}

/// An ASCII letter in lower case; other bytes as they are.
pub open spec fn ascii_lower(b: u8) -> u8 {
    if 65 <= b <= 90 {
        (b + 32) as u8
    } else {
        b
    }
}

/// `a` equals the lower-case word `w` when ASCII case is ignored.
pub open spec fn same_ignoring_case(a: Seq<u8>, w: Seq<u8>) -> bool {
    &&& a.len() == w.len()
    &&& forall|j: int| 0 <= j < a.len() ==> ascii_lower(#[trigger] a[j]) == w[j]
}

/// The name and the value of a `setoption` command's arguments `name <name> value <value>`,
/// each trimmed.
pub open spec fn option_parts(s: Seq<u8>) -> Option<(Seq<u8>, Seq<u8>)> {
    if s.len() >= 5 && s.subrange(0, 5) == word_name() {
        let t = s.subrange(5, s.len() as int);
        match find_from(t, word_value(), 0) {
            Some(i) => Some((trimmed(t.subrange(0, i)), trimmed(t.subrange(i + 7, t.len() as int)))),
            None => None,
        }
    } else {
        None
    }
}

/// The file named by a `setoption` command that sets the `EvalFile` option (its name in any
/// case); none for any other command.
pub open spec fn eval_file_spec(s: Seq<u8>) -> Option<Seq<u8>> {
    match option_parts(s) {
        Some((name, value)) => if same_ignoring_case(name, word_evalfile()) {
            Some(value)
        } else {
            None
        },
        None => None,
    }
}

/// Whether `a` equals the lower-case word `w` when ASCII case is ignored.
fn eq_ignoring_case(a: &[u8], w: &[u8]) -> (b: bool)
    ensures
        b == same_ignoring_case(a@, w@),
{
    if a.len() != w.len() {
        return false;
    }
    let mut j: usize = 0;
    while j < a.len()
        invariant
            a@.len() == w@.len(),
            j <= a@.len(),
            forall|k: int| 0 <= k < j ==> ascii_lower(#[trigger] a@[k]) == w@[k],
        decreases a@.len() - j,
    {
        let c = a[j];
        let lower: u8 = if 65 <= c && c <= 90 {
            c + 32
        } else {
            c
        };
        if lower != w[j] {
            return false;
        }
        j = j + 1;
    }
    true
}

/// Reads a `setoption` command's arguments: the file it names when it sets the `EvalFile`
/// option, whose name may be written in any case.
pub fn eval_file_option(rest: &str) -> (r: Option<Vec<u8>>)
    ensures
        match r {
            Some(v) => eval_file_spec(rest.spec_bytes()) == Some(v@),
            None => eval_file_spec(rest.spec_bytes()) is None,
        },
{
    let bytes = rest.as_bytes();
    let ghost s = bytes@;
    let name_word: [u8; 5] = [110, 97, 109, 101, 32];
    let value_word: [u8; 7] = [32, 118, 97, 108, 117, 101, 32];
    let evalfile: [u8; 8] = [101, 118, 97, 108, 102, 105, 108, 101];
    assert(name_word@ =~= word_name());
    assert(value_word@ =~= word_value());
    assert(evalfile@ =~= word_evalfile());
    if bytes.len() < 5 || !token_is(bytes, 0, 5, &name_word) {
        return None;
    }
    let after = copy_range(bytes, 5, bytes.len());
    let ghost t = after@;
    proof {
        crate::uci::position::lemma_find_bounds(t, word_value(), 0);
    }
    let at = find_word(&after, &value_word);
    let i = match at {
        Some(i) => i,
        None => {
            return None;
        },
    };
    let name_part = copy_range(&after, 0, i);
    let name = trim_copy(&name_part);
    let value_part = copy_range(&after, i + 7, after.len());
    let value = trim_copy(&value_part);
    assert(option_parts(s) == Some((name@, value@)));
    if eq_ignoring_case(&name, &evalfile) {
        Some(value)
    } else {
        None
    }
}

} // verus!
