//! Splitting a text at its delimiters, unless an escape stands before them, and cutting
//! it at byte offsets.

use crate::escape::{
    has_escape_pair, is_escape_pair, is_escaped, lemma_escape_pair_take, lemma_next_split,
    lemma_next_split_unique, lemma_sanitize_drops, lemma_sanitize_run, lemma_sanitize_take,
    lemma_sanitized_segments_unfold, next_split, no_pair_between, no_split_between, sanitize,
    sanitize_prefix, sanitized_segments, segments,
};
use crate::split::scan::{Cursor, ScanEvent};
use crate::util::utf8::{
    byte_offset, lemma_byte_offset_bounds, lemma_byte_offset_step, slice_chars, split_at_char,
    width,
};
use crate::util::Sorted;
use std::borrow::Cow;
use vstd::prelude::*;
use vstd::std_specs::iter::IteratorSpec;
use vstd::string::*;

pub use crate::split::cut::{
    cuts_text, is_cut_at, n_times, piece_start, try_n_times, NTimesError,
};

mod cut;
mod scan;

verus! {


/// Why a text cannot be split with the given escape and delimiters.
#[derive(Debug, Clone, Copy, PartialEq, Eq, Structural)]
pub enum NonEscapedError {
    /// The escape is one of the delimiters, so that its role would be ambiguous.
    EscapeEqualsDelimiter,
}

/// The segments of a text, handed out one by one as they stand in the text.
///
/// Viewed as the sequence of the segments that are still to come.
#[derive(Debug)]
pub struct NonEscaped<'s, const N: usize> {
    rest: &'s str,
    esc: char,
    delims: Sorted<char, N>,
    done: bool,
}

impl<'s, const N: usize> Clone for NonEscaped<'s, N> {
    fn clone(&self) -> (r: Self)
        ensures
            r == *self,
    {
        proof {
            use_type_invariant(self);
        }
        NonEscaped { rest: self.rest, esc: self.esc, delims: self.delims, done: self.done }
    }
}

impl<'s, const N: usize> View for NonEscaped<'s, N> {
    type V = Seq<Seq<char>>;

    open spec fn view(&self) -> Seq<Seq<char>> {
        if self.is_done() {
            Seq::empty()
        } else {
            segments(self.remainder(), self.escape(), self.delimiters())
        }
    }
}

impl<'s, const N: usize> NonEscaped<'s, N> {
    #[verifier::type_invariant]
    spec fn inv(&self) -> bool {
        !self.delims@.contains(self.esc)
    }

    /// The part of the text that has not been scanned yet.
    pub closed spec fn remainder(&self) -> Seq<char> {
        self.rest@
    }

    /// The escape token.
    pub closed spec fn escape(&self) -> char {
        self.esc
    }

    /// The delimiters.
    pub closed spec fn delimiters(&self) -> Set<char> {
        self.delims@.to_set()
    }

    /// Whether the last segment has been handed out.
    pub closed spec fn is_done(&self) -> bool {
        self.done
    }

    /// Whether this is the sequence as it is before its first segment is handed out:
    /// all of `text` is still to be scanned.
    pub open spec fn starts_at(&self, text: Seq<char>, esc: char, delims: Set<char>) -> bool {
        &&& self.remainder() == text
        &&& self.escape() == esc
        &&& self.delimiters() == delims
        &&& !self.is_done()
    }

    /// Hands out all the segments that are still to come.
    pub fn collect(self) -> (parts: Vec<&'s str>)
        ensures
            parts@.len() == self@.len(),
            forall|i: int| 0 <= i < parts@.len() ==> (#[trigger] parts@[i])@ == self@[i],
    {
        let mut scanner = self;
        let mut parts: Vec<&'s str> = Vec::new();
        loop
            invariant
                parts@.len() + scanner@.len() == self@.len(),
                forall|i: int| 0 <= i < parts@.len() ==> (#[trigger] parts@[i])@ == self@[i],
                forall|i: int|
                    0 <= i < scanner@.len() ==> #[trigger] scanner@[i] == self@[parts@.len() + i],
            decreases scanner@.len(),
        {
            let ghost before = scanner@;
            match scanner.next() {
                None => {
                    return parts;
                },
                Some(part) => {
                    assert forall|i: int| 0 <= i < scanner@.len() implies #[trigger] scanner@[i]
                        == self@[parts@.len() + 1 + i] by {
                        assert(scanner@[i] == before[i + 1]);
                    }
                    parts.push(part);
                },
            }
        }
    }

    /// Hands out the next segment: the remainder up to its first split point, or all of
    /// it where it has none, which ends the sequence.
    pub fn next(&mut self) -> (r: Option<&'s str>)
        ensures
            final(self).escape() == old(self).escape(),
            final(self).delimiters() == old(self).delimiters(),
            old(self).is_done() ==> r is None && final(self).is_done() && final(self).remainder()
                == old(self).remainder(),
            !old(self).is_done() ==> {
                let text = old(self).remainder();
                let at = next_split(text, old(self).escape(), old(self).delimiters(), 0);
                &&& r matches Some(segment) && segment@ == text.take(at)
                &&& at < text.len() ==> !final(self).is_done() && final(self).remainder()
                    == text.skip(at + 1)
                &&& at >= text.len() ==> final(self).is_done()
            },
            r is None <==> old(self)@.len() == 0,
            r matches Some(segment) ==> segment@ == old(self)@[0],
            final(self)@ == old(self)@.drop_first() || (r is None && final(self)@ == old(self)@),
    {
        proof {
            use_type_invariant(&*self);
        }
        if self.done {
            return None;
        }
        let rest: &'s str = self.rest;
        let ghost set = self.delims@.to_set();
        let mut cursor = Cursor::new(rest);
        proof {
            lemma_next_split(rest@, self.esc, set, 0);
        }
        loop
            invariant
                *self == *old(self),
                rest == self.rest,
                !self.done,
                !self.delims@.contains(self.esc),
                set == self.delims@.to_set(),
                cursor.wf(),
                cursor.chars.remaining() == rest@.skip(cursor.index@),
                cursor.text@ == rest@,
                !is_escaped(rest@, self.esc, cursor.index@),
                no_split_between(rest@, self.esc, set, 0, cursor.index@),
            decreases rest@.len() - cursor.index@,
        {
            match cursor.next_event(self.esc, &self.delims) {
                ScanEvent::Escape { .. } => {},
                ScanEvent::Split { at, width } => {
                    let ghost k = cursor.index@ - 1;
                    let (head, _) = split_at_char(rest, at, Ghost(k));
                    let (_, tail) = split_at_char(rest, at + width, Ghost(k + 1));
                    proof {
                        lemma_next_split_unique(rest@, self.esc, set, 0, k);
                        assert(seq![rest@.take(k)] + segments(tail@, self.esc, set)
                            =~= segments(rest@, self.esc, set));
                        assert(segments(rest@, self.esc, set).drop_first() =~= segments(
                            tail@,
                            self.esc,
                            set,
                        ));
                    }
                    self.rest = tail;
                    return Some(head);
                },
                ScanEvent::End => {
                    proof {
                        lemma_next_split_unique(rest@, self.esc, set, 0, rest@.len() as int);
                        assert(rest@.take(rest@.len() as int) =~= rest@);
                        assert(seq![rest@].drop_first() =~= Seq::<Seq<char>>::empty());
                    }
                    self.done = true;
                    return Some(rest);
                },
            }
        }
    }
}

/// Splits `input` at every delimiter that no escape suppresses. The segments are
/// stretches of `input`: escapes stay in them as they are.
pub fn non_escaped<'s, const N: usize>(input: &'s str, esc: char, delims: Sorted<char, N>) -> (r:
    Result<NonEscaped<'s, N>, NonEscapedError>)
    ensures
        r is Err <==> delims@.contains(esc),
        r matches Err(e) ==> e == NonEscapedError::EscapeEqualsDelimiter,
        r matches Ok(parts) ==> {
            &&& parts.starts_at(input@, esc, delims@.to_set())
            &&& parts@ == segments(input@, esc, delims@.to_set())
        },
{
    if delims.is_escape_conflict(esc) {
        return Err(NonEscapedError::EscapeEqualsDelimiter);
    }
    Ok(NonEscaped { rest: input, esc, delims, done: false })
}

/// The sanitized segments of a text, handed out one by one as they stand in the text.
///
/// Viewed as the sequence of the sanitized segments that are still to come.
#[derive(Debug)]
pub struct NonEscapedSanitize<'s, const N: usize> {
    rest: &'s str,
    esc: char,
    delims: Sorted<char, N>,
    done: bool,
}

impl<'s, const N: usize> Clone for NonEscapedSanitize<'s, N> {
    fn clone(&self) -> (r: Self)
        ensures
            r == *self,
    {
        proof {
            use_type_invariant(self);
        }
        NonEscapedSanitize { rest: self.rest, esc: self.esc, delims: self.delims, done: self.done }
    }
}

impl<'s, const N: usize> View for NonEscapedSanitize<'s, N> {
    type V = Seq<Seq<char>>;

    open spec fn view(&self) -> Seq<Seq<char>> {
        if self.is_done() {
            Seq::empty()
        } else {
            sanitized_segments(self.remainder(), self.escape(), self.delimiters())
        }
    }
}

/// The text that was copied so far, followed by the stretch of `rest` from the byte
/// offset `run_start` up to the byte offset `end`. Where nothing was copied, that
/// stretch is handed out as it stands in `rest`.
fn finish_piece<'s>(
    rest: &'s str,
    copy: String,
    copied: bool,
    run_start: usize,
    end: usize,
    Ghost(run_index): Ghost<int>,
    Ghost(end_index): Ghost<int>,
) -> (piece: Cow<'s, str>)
    requires
        0 <= run_index <= end_index <= rest@.len(),
        run_start == byte_offset(rest@, run_index),
        end == byte_offset(rest@, end_index),
        !copied ==> copy@.len() == 0 && run_index == 0,
    ensures
        piece@ == copy@ + rest@.subrange(run_index, end_index),
        piece is Borrowed <==> !copied,
{
    let run = slice_chars(rest, run_start, end, Ghost(run_index), Ghost(end_index));
    if copied {
        let mut copy = copy;
        copy.append(run);
        Cow::Owned(copy)
    } else {
        assert(copy@ + run@ =~= run@);
        Cow::Borrowed(run)
    }
}

impl<'s, const N: usize> NonEscapedSanitize<'s, N> {
    #[verifier::type_invariant]
    spec fn inv(&self) -> bool {
        !self.delims@.contains(self.esc)
    }

    /// The part of the text that has not been scanned yet.
    pub closed spec fn remainder(&self) -> Seq<char> {
        self.rest@
    }

    /// The escape token.
    pub closed spec fn escape(&self) -> char {
        self.esc
    }

    /// The delimiters.
    pub closed spec fn delimiters(&self) -> Set<char> {
        self.delims@.to_set()
    }

    /// Whether the last segment has been handed out.
    pub closed spec fn is_done(&self) -> bool {
        self.done
    }

    /// Whether this is the sequence as it is before its first segment is handed out:
    /// all of `text` is still to be scanned.
    pub open spec fn starts_at(&self, text: Seq<char>, esc: char, delims: Set<char>) -> bool {
        &&& self.remainder() == text
        &&& self.escape() == esc
        &&& self.delimiters() == delims
        &&& !self.is_done()
    }

    /// Hands out all the segments that are still to come.
    pub fn collect(self) -> (parts: Vec<Cow<'s, str>>)
        ensures
            parts@.len() == self@.len(),
            forall|i: int| 0 <= i < parts@.len() ==> (#[trigger] parts@[i])@ == self@[i],
    {
        let mut scanner = self;
        let mut parts: Vec<Cow<'s, str>> = Vec::new();
        loop
            invariant
                parts@.len() + scanner@.len() == self@.len(),
                forall|i: int| 0 <= i < parts@.len() ==> (#[trigger] parts@[i])@ == self@[i],
                forall|i: int|
                    0 <= i < scanner@.len() ==> #[trigger] scanner@[i] == self@[parts@.len() + i],
            decreases scanner@.len(),
        {
            let ghost before = scanner@;
            match scanner.next() {
                None => {
                    return parts;
                },
                Some(part) => {
                    assert forall|i: int| 0 <= i < scanner@.len() implies #[trigger] scanner@[i]
                        == self@[parts@.len() + 1 + i] by {
                        assert(scanner@[i] == before[i + 1]);
                    }
                    parts.push(part);
                },
            }
        }
    }

    /// Hands out the next segment, sanitized. A segment without an escape pair is
    /// borrowed from the text; any other is copied without the escapes of its pairs.
    pub fn next(&mut self) -> (r: Option<Cow<'s, str>>)
        ensures
            final(self).escape() == old(self).escape(),
            final(self).delimiters() == old(self).delimiters(),
            old(self).is_done() ==> r is None && final(self).is_done() && final(self).remainder()
                == old(self).remainder(),
            !old(self).is_done() ==> {
                let text = old(self).remainder();
                let esc = old(self).escape();
                let delims = old(self).delimiters();
                let at = next_split(text, esc, delims, 0);
                &&& r matches Some(piece) && {
                    &&& piece@ == sanitize(text.take(at), esc, delims)
                    &&& piece is Borrowed <==> !has_escape_pair(text.take(at), esc, delims)
                    &&& piece is Borrowed ==> piece@ == text.take(at)
                }
                &&& at < text.len() ==> !final(self).is_done() && final(self).remainder()
                    == text.skip(at + 1)
                &&& at >= text.len() ==> final(self).is_done()
            },
            r is None <==> old(self)@.len() == 0,
            r matches Some(piece) ==> piece@ == old(self)@[0],
            final(self)@ == old(self)@.drop_first() || (r is None && final(self)@ == old(self)@),
    {
        proof {
            use_type_invariant(&*self);
        }
        if self.done {
            return None;
        }
        let rest: &'s str = self.rest;
        let esc = self.esc;
        let ghost set = self.delims@.to_set();
        let mut cursor = Cursor::new(rest);
        let mut copy = String::new();
        let mut copied = false;
        let mut run_start: usize = 0;
        let ghost mut run_index: int = 0;
        let ghost mut pair_index: int = 0;
        proof {
            lemma_next_split(rest@, esc, set, 0);
            lemma_sanitized_segments_unfold(rest@, esc, set);
            lemma_byte_offset_bounds(rest@, 0, 0);
            assert(copy@ + rest@.subrange(0, 0) =~= sanitize_prefix(rest@, esc, set, 0));
        }
        loop
            invariant
                *self == *old(self),
                rest == self.rest,
                esc == self.esc,
                !self.done,
                !self.delims@.contains(esc),
                set == self.delims@.to_set(),
                cursor.wf(),
                cursor.chars.remaining() == rest@.skip(cursor.index@),
                cursor.text@ == rest@,
                !is_escaped(rest@, esc, cursor.index@),
                no_split_between(rest@, esc, set, 0, cursor.index@),
                0 <= run_index <= cursor.index@,
                run_start == byte_offset(rest@, run_index),
                copy@ + rest@.subrange(run_index, cursor.index@) == sanitize_prefix(
                    rest@,
                    esc,
                    set,
                    cursor.index@,
                ),
                !copied ==> copy@.len() == 0 && run_index == 0 && no_pair_between(
                    rest@,
                    esc,
                    set,
                    0,
                    cursor.index@,
                ),
                copied ==> is_escape_pair(rest@, esc, set, pair_index) && pair_index + 1
                    < cursor.index@,
            decreases rest@.len() - cursor.index@,
        {
            let ghost before: int = cursor.index@;
            let event = cursor.next_event(esc, &self.delims);
            let ghost after: int = cursor.index@;
            match event {
                ScanEvent::Escape { at } => {
                    let ghost pair: int = after - 2;
                    let run = slice_chars(rest, run_start, at, Ghost(run_index), Ghost(pair));
                    proof {
                        lemma_sanitize_run(rest@, esc, set, before, pair);
                        lemma_sanitize_drops(rest@, esc, set, pair);
                        lemma_byte_offset_step(rest@, pair);
                        lemma_byte_offset_bounds(rest@, pair + 1, pair + 1);
                        assert(copy@ + rest@.subrange(run_index, before) + rest@.subrange(
                            before,
                            pair,
                        ) =~= copy@ + run@);
                        assert(rest@.subrange(pair + 1, after) =~= seq![rest@[pair + 1]]);
                        assert(copy@ + run@ + rest@.subrange(pair + 1, after) =~= (copy@
                            + run@).push(rest@[pair + 1]));
                    }
                    copy.append(run);
                    copied = true;
                    run_start = at + width(esc);
                    proof {
                        run_index = pair + 1;
                        pair_index = pair;
                    }
                },
                ScanEvent::Split { at, width } => {
                    let ghost k: int = after - 1;
                    let (_, tail) = split_at_char(rest, at + width, Ghost(k + 1));
                    let piece = finish_piece(
                        rest,
                        copy,
                        copied,
                        run_start,
                        at,
                        Ghost(run_index),
                        Ghost(k),
                    );
                    proof {
                        lemma_next_split_unique(rest@, esc, set, 0, k);
                        lemma_sanitize_run(rest@, esc, set, before, k);
                        lemma_sanitize_take(rest@, esc, set, k, k);
                        assert(copy@ + rest@.subrange(run_index, before) + rest@.subrange(
                            before,
                            k,
                        ) =~= copy@ + rest@.subrange(run_index, k));
                        lemma_pair_in_segment(rest@, esc, set, k, copied, pair_index);
                        assert(sanitized_segments(rest@, esc, set).drop_first()
                            =~= sanitized_segments(tail@, esc, set));
                    }
                    self.rest = tail;
                    return Some(piece);
                },
                ScanEvent::End => {
                    let ghost k: int = after;
                    let piece = finish_piece(
                        rest,
                        copy,
                        copied,
                        run_start,
                        cursor.offset,
                        Ghost(run_index),
                        Ghost(k),
                    );
                    proof {
                        lemma_next_split_unique(rest@, esc, set, 0, k);
                        lemma_sanitize_run(rest@, esc, set, before, k);
                        lemma_sanitize_take(rest@, esc, set, k, k);
                        assert(copy@ + rest@.subrange(run_index, before) + rest@.subrange(
                            before,
                            k,
                        ) =~= copy@ + rest@.subrange(run_index, k));
                        lemma_pair_in_segment(rest@, esc, set, k, copied, pair_index);
                        assert(rest@.take(k) =~= rest@);
                        assert(seq![sanitize(rest@, esc, set)].drop_first() =~= Seq::<
                            Seq<char>,
                        >::empty());
                    }
                    self.done = true;
                    return Some(piece);
                },
            }
        }
    }
}

/// A segment that ends at `k` holds an escape pair if the text holds one before `k`,
/// and none if the text holds none before `k`.
proof fn lemma_pair_in_segment(
    text: Seq<char>,
    esc: char,
    delims: Set<char>,
    k: int,
    copied: bool,
    pair_index: int,
)
    requires
        0 <= k <= text.len(),
        copied ==> is_escape_pair(text, esc, delims, pair_index) && pair_index + 1 < k,
        !copied ==> no_pair_between(text, esc, delims, 0, k),
    ensures
        has_escape_pair(text.take(k), esc, delims) == copied,
{
    if copied {
        lemma_escape_pair_take(text, esc, delims, k, pair_index);
    } else {
        assert forall|j: int| !is_escape_pair(text.take(k), esc, delims, j) by {
            if 0 <= j && j + 1 < k {
                lemma_escape_pair_take(text, esc, delims, k, j);
            }
        }
    }
}

/// Splits `input` at every delimiter that no escape suppresses, and removes from each
/// segment the escapes that suppress a delimiter or another escape. Every other token
/// stays, an escape at the very end too.
pub fn non_escaped_sanitize<'s, const N: usize>(
    input: &'s str,
    esc: char,
    delims: Sorted<char, N>,
) -> (r: Result<NonEscapedSanitize<'s, N>, NonEscapedError>)
    ensures
        r is Err <==> delims@.contains(esc),
        r matches Err(e) ==> e == NonEscapedError::EscapeEqualsDelimiter,
        r matches Ok(parts) ==> {
            &&& parts.starts_at(input@, esc, delims@.to_set())
            &&& parts@ == sanitized_segments(input@, esc, delims@.to_set())
        },
{
    if delims.is_escape_conflict(esc) {
        return Err(NonEscapedError::EscapeEqualsDelimiter);
    }
    Ok(NonEscapedSanitize { rest: input, esc, delims, done: false })
}

} // verus!
