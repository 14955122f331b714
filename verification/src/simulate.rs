//! Checks a debris-simulation request must pass before any trajectory is
//! built.

use vstd::prelude::*;
use crate::text::{append_chars, chars_of, dec, dec_chars, string_of};

verus! {

/// How many fragments a nav + FTS request would spawn: every time, on
/// each side it turns to (one, or both), every fragment of the catalogue.
pub open spec fn nav_fragment_total(n_times: nat, both_sides: bool, fragments: nat) -> nat {
    n_times * (if both_sides {
        2nat
    } else {
        1nat
    }) * fragments
}

/// Why a nav + FTS request is refused, if it is: it names no time, or it
/// would spawn more than 2000 fragments.
pub open spec fn nav_request_error(n_times: nat, both_sides: bool, fragments: nat) -> Option<Seq<char>> {
    if n_times == 0 {
        Some("add at least one time along the source trajectory"@)
    } else if nav_fragment_total(n_times, both_sides, fragments) > 2000 {
        Some(
            "nav + FTS would spawn "@ + dec(nav_fragment_total(n_times, both_sides, fragments))
                + " fragments (max 2000). Use fewer times or pieces."@,
        )
    } else {
        None
    }
}

/// Checks a nav + FTS request of `n_times` times, turning to both sides or
/// one, with a catalogue of `fragments` pieces.
pub fn check_nav_request(n_times: usize, both_sides: bool, fragments: usize) -> (r: Result<(), String>)
    requires
        nav_fragment_total(n_times as nat, both_sides, 1) <= usize::MAX,
        nav_fragment_total(n_times as nat, both_sides, fragments as nat) <= usize::MAX,
    ensures
        match r {
            Ok(()) => nav_request_error(n_times as nat, both_sides, fragments as nat) is None,
            Err(e) => nav_request_error(n_times as nat, both_sides, fragments as nat) == Some(e@),
        },
{
    if n_times == 0 {
        return Err(String::from_str("add at least one time along the source trajectory"));
    }
    let sides: usize = if both_sides {
        2
    } else {
        1
    };
    let per: usize = n_times * sides;
    assert(per * fragments == nav_fragment_total(n_times as nat, both_sides, fragments as nat));
    let total: usize = per * fragments;
    if total > 2000 {
        let mut msg = chars_of("nav + FTS would spawn ");
        let digits = dec_chars(total as u64);
        append_chars(&mut msg, &digits);
        append_chars(&mut msg, &chars_of(" fragments (max 2000). Use fewer times or pieces."));
        return Err(string_of(&msg));
    }
    Ok(())
}

} // verus!
