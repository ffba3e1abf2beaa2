//! Telling direct denominations from wrapped ones.
//!
//! A denomination is wrapped when it starts with `ibc/`, or when it holds a
//! `/` and also contains the text `ibc`. Everything else, including a plain
//! name such as `uibcx` that has no `/`, is direct and is its own base.

use vstd::prelude::*;
use crate::text::{after_last_slash, contains_seq, contains_str, starts_with_seq, starts_with_str, suffix_after_last_slash};

verus! {

/// The prefix of a wrapped denomination.
pub open spec fn wrapped_prefix() -> Seq<char> {
    seq!['i', 'b', 'c', '/']
}

/// The marker of inter-chain transfer inside a denomination.
pub open spec fn wrapped_marker() -> Seq<char> {
    seq!['i', 'b', 'c']
}

/// The path separator.
pub open spec fn separator() -> Seq<char> {
    seq!['/']
}

/// `d` names an asset that reached its chain over transfer channels.
pub open spec fn is_wrapped(d: Seq<char>) -> bool {
    starts_with_seq(d, wrapped_prefix()) || (contains_seq(d, separator()) && contains_seq(d, wrapped_marker()))
}

/// A classified denomination.
pub enum Denomination {
    /// Held on its own chain; it is its own base denomination.
    Direct,
    /// Wrapped; `hash` is what its trace is looked up by.
    Wrapped { hash: String },
}

/// Classifies `denom`; a wrapped one carries the text after its last `/`.
pub fn classify(denom: &str) -> (r: Denomination)
    ensures
        match r {
            Denomination::Direct => !is_wrapped(denom@),
            Denomination::Wrapped { hash } => is_wrapped(denom@) && hash@ == after_last_slash(denom@),
        },
{
    if is_wrapped_denom(denom) {
        Denomination::Wrapped { hash: suffix_after_last_slash(denom) }
    } else {
        Denomination::Direct
    }
}

/// Whether `denom` is wrapped.
pub fn is_wrapped_denom(denom: &str) -> (r: bool)
    ensures
        r == is_wrapped(denom@),
{
    proof {
        reveal_strlit("ibc/");
        reveal_strlit("ibc");
        reveal_strlit("/");
        assert("ibc/"@ =~= wrapped_prefix());
        assert("ibc"@ =~= wrapped_marker());
        assert("/"@ =~= separator());
    }
    if starts_with_str(denom, "ibc/") {
        true
    } else {
        contains_str(denom, "/") && contains_str(denom, "ibc")
    }
}

} // verus!
