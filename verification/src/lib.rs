//! A small skill-tracking library: a JSON-backed skill store that
//! deduplicates names case-insensitively, a substring search filter,
//! a character-indexed input editor, and the mode state machine that
//! drives them from key events.

use vstd::prelude::*;

pub mod json;
pub mod session;
pub mod store;
pub mod text;
pub mod util;

verus! {

/// True for the characters the store treats as blank space.
pub open spec fn is_ws_char(c: char) -> bool {
    c == ' ' || c == '\t' || c == '\n' || c == '\r'
}

/// A text made only of blank space (or nothing at all).
pub open spec fn is_all_ws(s: Seq<char>) -> bool {
    forall|i: int| 0 <= i < s.len() ==> is_ws_char(#[trigger] s[i])
}

} // verus!
