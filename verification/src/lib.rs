//! Helpers for splitting and parsing strings that follow user-written escaping rules,
//! such as user input in which a delimiter can be escaped.
//!
//! The [`StrTools`] trait offers them as methods of `str`. What escaping means is
//! defined in [`escape`], over plain sequences of `char`; the functions of [`split`]
//! are proved to compute just that.
//!
//! ```
//! use strtools::util::Sorted;
//! use strtools::StrTools;
//!
//! let delimiters = Sorted::new([' ', ',']).unwrap();
//! let parts = r"one two\ three,four".split_non_escaped_sanitize('\\', delimiters).unwrap();
//! assert_eq!(parts.collect(), ["one", "two three", "four"]);
//! ```

use crate::escape::{sanitized_segments, segments};
use crate::parse::{FromStrBack, FromStrFront};
use crate::split::{cuts_text, is_cut_at, NonEscaped, NonEscapedError, NonEscapedSanitize};
use crate::util::sealed::Sealed;
use crate::util::Sorted;
use vstd::prelude::*;

pub mod escape;
pub mod parse;
pub mod split;
pub mod util;

verus! {

/// Helper methods for `str`.
pub trait StrTools: Sealed + View<V = Seq<char>> {
    /// Cuts the text at each of the byte offsets `indices`, which ascend, into the
    /// pieces before them and the piece behind the last.
    fn split_n_times<const N: usize>(&self, indices: &Sorted<usize, N>) -> (r: ([&str; N], &str))
        requires
            cuts_text(self@, indices@),
        ensures
            is_cut_at(self@, indices@, r.0, r.1),
    ;

    /// Splits the text at every delimiter that no escape suppresses, and removes from
    /// each segment the escapes that suppress a delimiter or another escape. An escape
    /// at the very end stays.
    ///
    /// No segment is copied unless an escape has to be removed from it.
    fn split_non_escaped_sanitize<const N: usize>(
        &self,
        esc: char,
        delims: Sorted<char, N>,
    ) -> (r: Result<NonEscapedSanitize<'_, N>, NonEscapedError>)
        ensures
            r is Err <==> delims@.contains(esc),
            r matches Err(e) ==> e == NonEscapedError::EscapeEqualsDelimiter,
            r matches Ok(parts) ==> {
                &&& parts.starts_at(self@, esc, delims@.to_set())
                &&& parts@ == sanitized_segments(self@, esc, delims@.to_set())
            },
    ;

    /// Splits the text at every delimiter that no escape suppresses. The segments are
    /// stretches of the text: escapes stay in them as they are.
    fn split_non_escaped<const N: usize>(&self, esc: char, delims: Sorted<char, N>) -> (r: Result<
        NonEscaped<'_, N>,
        NonEscapedError,
    >)
        ensures
            r is Err <==> delims@.contains(esc),
            r matches Err(e) ==> e == NonEscapedError::EscapeEqualsDelimiter,
            r matches Ok(parts) ==> {
                &&& parts.starts_at(self@, esc, delims@.to_set())
                &&& parts@ == segments(self@, esc, delims@.to_set())
            },
    ;

    /// Parses a `T` from the front of the text and returns it with the rest of the
    /// text, or the error of `T`'s parser.
    fn parse_front<T: FromStrFront>(&self) -> (r: Result<(T, &str), T::Error>)
        ensures
            r matches Ok((_, rest)) ==> rest@.is_suffix_of(self@),
    ;

    /// Parses a `T` from the back of the text and returns it with the rest of the text,
    /// or the error of `T`'s parser.
    fn parse_back<T: FromStrBack>(&self) -> (r: Result<(T, &str), T::Error>)
        ensures
            r matches Ok((_, rest)) ==> rest@.is_prefix_of(self@),
    ;
}

impl StrTools for str {
    fn split_n_times<const N: usize>(&self, indices: &Sorted<usize, N>) -> (r: ([&str; N], &str)) {
        split::n_times(self, indices)
    }

    fn split_non_escaped_sanitize<const N: usize>(
        &self,
        esc: char,
        delims: Sorted<char, N>,
    ) -> (r: Result<NonEscapedSanitize<'_, N>, NonEscapedError>) {
        split::non_escaped_sanitize(self, esc, delims)
    }

    fn split_non_escaped<const N: usize>(&self, esc: char, delims: Sorted<char, N>) -> (r: Result<
        NonEscaped<'_, N>,
        NonEscapedError,
    >) {
        split::non_escaped(self, esc, delims)
    }

    fn parse_front<T: FromStrFront>(&self) -> (r: Result<(T, &str), T::Error>)
        ensures
            call_ensures(T::from_str_front, (self,), r),
    {
        T::from_str_front(self)
    }

    fn parse_back<T: FromStrBack>(&self) -> (r: Result<(T, &str), T::Error>)
        ensures
            call_ensures(T::from_str_back, (self,), r),
    {
        T::from_str_back(self)
    }
}

} // verus!
