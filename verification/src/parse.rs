//! Parsing a value from the front or the back of a text.
//!
//! The traits here say what such a parser owes, whatever it parses: on success, the
//! text that it hands back is what lies behind, or before, the chars that it took.

use vstd::prelude::*;

verus! {

/// A value that can be parsed from the front of a text.
pub trait FromStrFront: Sized {
    /// Why parsing failed.
    type Error;

    /// Parses a value from the front of `input` and returns it with the rest of the
    /// text: the end of `input`, from behind the chars that stand for the value.
    fn from_str_front(input: &str) -> (r: Result<(Self, &str), Self::Error>)
        ensures
            r matches Ok((_, rest)) ==> rest@.is_suffix_of(input@),
    ;
}

/// A value that can be parsed from the back of a text.
pub trait FromStrBack: Sized {
    /// Why parsing failed.
    type Error;

    /// Parses a value from the back of `input` and returns it with the rest of the
    /// text: the beginning of `input`, up to the chars that stand for the value.
    fn from_str_back(input: &str) -> (r: Result<(Self, &str), Self::Error>)
        ensures
            r matches Ok((_, rest)) ==> rest@.is_prefix_of(input@),
    ;
}

} // verus!
