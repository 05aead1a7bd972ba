//! The scan that both ways of splitting share: a cursor that walks a text once and
//! reports the escape pairs and split points that it comes upon.

use crate::escape::{is_escape_pair, is_escaped, is_split_point, no_pair_between, no_split_between};
use crate::util::utf8::{
    byte_len, byte_length, byte_offset, char_width, lemma_byte_offset_bounds,
    lemma_byte_offset_step, width,
};
use crate::util::Sorted;
use std::str::Chars;
use vstd::prelude::*;
use vstd::std_specs::iter::IteratorSpec;

verus! {

/// What a scan comes upon next.
pub(super) enum ScanEvent {
    /// The escape of an escape pair, at the byte offset `at`. The scan has gone past the
    /// token that the escape suppresses.
    Escape { at: usize },
    /// A split point: a delimiter of `width` bytes at the byte offset `at`. The scan has
    /// gone past it.
    Split { at: usize, width: usize },
    /// The end of the text.
    End,
}

/// A position in a text that moves forward char by char and knows its byte offset.
pub(super) struct Cursor<'s> {
    pub(super) chars: Chars<'s>,
    pub(super) offset: usize,
    pub(super) limit: Ghost<usize>,
    pub(super) text: Ghost<Seq<char>>,
    pub(super) index: Ghost<int>,
}

impl<'s> Cursor<'s> {
    pub(super) open spec fn wf(&self) -> bool {
        &&& 0 <= self.index@ <= self.text@.len()
        &&& self.offset == byte_offset(self.text@, self.index@)
        &&& self.limit@ == byte_len(self.text@)
    }

    /// Whether `after` is this cursor moved forward in the same text.
    pub(super) open spec fn moved_to(&self, after: &Self) -> bool {
        &&& after.wf()
        &&& after.text@ == self.text@
        &&& after.limit@ == self.limit@
        &&& self.index@ <= after.index@
    }

    pub(super) fn new(text: &'s str) -> (cursor: Self)
        ensures
            cursor.wf(),
            cursor.chars.remaining() == text@,
            cursor.text@ == text@,
            cursor.index@ == 0,
    {
        broadcast use vstd::string::group_string_axioms;

        proof {
            lemma_byte_offset_bounds(text@, 0, 0);
            assert(text@.skip(0) =~= text@);
        }
        let limit = byte_length(text);
        Cursor {
            chars: text.chars(),
            offset: 0,
            limit: Ghost(limit),
            text: Ghost(text@),
            index: Ghost(0),
        }
    }

    /// Moves past the next char and returns it, if there is one.
    fn step(&mut self) -> (r: Option<char>)
        requires
            old(self).wf(),
            old(self).chars.remaining() == old(self).text@.skip(old(self).index@),
        ensures
            old(self).moved_to(final(self)),
            final(self).chars.remaining() == final(self).text@.skip(final(self).index@),
            match r {
                Some(c) => {
                    &&& old(self).index@ < old(self).text@.len()
                    &&& c == old(self).text@[old(self).index@]
                    &&& final(self).index@ == old(self).index@ + 1
                    &&& final(self).offset == old(self).offset + char_width(c)
                },
                None => {
                    &&& old(self).index@ == old(self).text@.len()
                    &&& final(self).index@ == old(self).index@
                },
            },
    {
        broadcast use vstd::string::group_string_axioms;

        let ghost text = self.text@;
        let ghost index = self.index@;
        match self.chars.next() {
            None => None,
            Some(c) => {
                proof {
                    assert(text.skip(index)[0] == text[index]);
                    assert(text.skip(index).drop_first() =~= text.skip(index + 1));
                    lemma_byte_offset_step(text, index);
                    lemma_byte_offset_bounds(text, index + 1, index + 1);
                }
                self.offset = self.offset + width(c);
                self.index = Ghost(index + 1);
                Some(c)
            },
        }
    }

    /// Moves forward to the next escape pair, split point or the end, whichever comes
    /// first, and goes past it.
    pub(super) fn next_event<const N: usize>(&mut self, esc: char, delims: &Sorted<char, N>) -> (event:
        ScanEvent)
        requires
            old(self).wf(),
            old(self).chars.remaining() == old(self).text@.skip(old(self).index@),
            !is_escaped(old(self).text@, esc, old(self).index@),
        ensures
            old(self).moved_to(final(self)),
            final(self).chars.remaining() == final(self).text@.skip(final(self).index@),
            match event {
                ScanEvent::Escape { at } => {
                    let at_index = final(self).index@ - 2;
                    &&& old(self).index@ <= at_index
                    &&& is_escape_pair(old(self).text@, esc, delims@.to_set(), at_index)
                    &&& at == byte_offset(old(self).text@, at_index)
                    &&& no_split_between(
                        old(self).text@,
                        esc,
                        delims@.to_set(),
                        old(self).index@,
                        final(self).index@,
                    )
                    &&& no_pair_between(
                        old(self).text@,
                        esc,
                        delims@.to_set(),
                        old(self).index@,
                        at_index,
                    )
                    &&& !is_escaped(old(self).text@, esc, final(self).index@)
                },
                ScanEvent::Split { at, width } => {
                    let at_index = final(self).index@ - 1;
                    &&& old(self).index@ <= at_index
                    &&& is_split_point(old(self).text@, esc, delims@.to_set(), at_index)
                    &&& at == byte_offset(old(self).text@, at_index)
                    &&& at + width == final(self).offset
                    &&& no_split_between(
                        old(self).text@,
                        esc,
                        delims@.to_set(),
                        old(self).index@,
                        at_index,
                    )
                    &&& no_pair_between(
                        old(self).text@,
                        esc,
                        delims@.to_set(),
                        old(self).index@,
                        final(self).index@,
                    )
                },
                ScanEvent::End => {
                    &&& final(self).index@ == old(self).text@.len()
                    &&& no_split_between(
                        old(self).text@,
                        esc,
                        delims@.to_set(),
                        old(self).index@,
                        final(self).index@,
                    )
                    &&& no_pair_between(
                        old(self).text@,
                        esc,
                        delims@.to_set(),
                        old(self).index@,
                        final(self).index@,
                    )
                },
            },
    {
        let ghost text = self.text@;
        let ghost start = self.index@;
        let ghost set = delims@.to_set();
        let mut pending = false;
        let mut escape_at: usize = 0;
        loop
            invariant
                old(self).moved_to(self),
                self.chars.remaining() == self.text@.skip(self.index@),
                text == self.text@,
                start == old(self).index@,
                set == delims@.to_set(),
                pending == is_escaped(text, esc, self.index@),
                pending ==> start < self.index@ && escape_at == byte_offset(
                    text,
                    self.index@ - 1,
                ),
                no_split_between(text, esc, set, start, self.index@),
                no_pair_between(
                    text,
                    esc,
                    set,
                    start,
                    if pending {
                        self.index@ - 1
                    } else {
                        self.index@
                    },
                ),
            decreases text.len() - self.index@,
        {
            let at = self.offset;
            match self.step() {
                None => {
                    return ScanEvent::End;
                },
                Some(c) => {
                    if pending {
                        if c == esc || delims.contains(c) {
                            return ScanEvent::Escape { at: escape_at };
                        }
                        pending = false;
                    } else if c == esc {
                        pending = true;
                        escape_at = at;
                    } else if delims.contains(c) {
                        return ScanEvent::Split { at, width: self.offset - at };
                    }
                },
            }
        }
    }
}

} // verus!
