//! Sorting characters into a few kinds.

use vstd::prelude::*;

verus! {

/// The words that describe what kind of character `c` is: an ASCII digit, an
/// ASCII letter, one of space, tab and line feed, or anything else.
pub open spec fn description_of(c: char) -> Seq<char> {
    if '0' <= c <= '9' {
        "number 0-9"@
    } else if 'a' <= c <= 'z' || 'A' <= c <= 'Z' {
        "alphabet"@
    } else if c == ' ' || c == '\t' || c == '\n' {
        "whitespace"@
    } else {
        "unknown char"@
    }
}

/// Describes what kind of character `c` is.
pub fn describe_char(c: char) -> (text: &'static str)
    ensures
        text@ == description_of(c),
{
    if '0' <= c && c <= '9' {
        "number 0-9"
    } else if ('a' <= c && c <= 'z') || ('A' <= c && c <= 'Z') {
        "alphabet"
    } else if c == ' ' || c == '\t' || c == '\n' {
        "whitespace"
    } else {
        "unknown char"
    }
}

} // verus!
