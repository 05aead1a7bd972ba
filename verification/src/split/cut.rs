//! Cutting a text at given byte offsets.

use crate::util::utf8::{byte_len, byte_length};
use crate::util::{strictly_ascending, Sorted, Token};
use vstd::prelude::*;
use vstd::utf8::*;

verus! {

/// Why a text cannot be cut at the given byte offsets.
#[derive(Debug, Clone, Copy, PartialEq, Eq, Structural)]
pub enum NTimesError {
    /// The last offset lies behind the end of the text.
    IndexOutOfBounds,
    /// The offsets lie within the text, but one of them inside a char.
    NotCharBoundary,
}

/// The byte offset at which piece `i` of a text begins that is cut at `indices`: the
/// index before it, and zero for the first piece.
pub open spec fn piece_start(indices: Seq<usize>, i: int) -> int {
    if i <= 0 {
        0
    } else {
        indices[i - 1] as int
    }
}

/// Whether `input` can be cut at every one of `indices`: each lies on a char boundary,
/// and so none lies behind the end.
pub open spec fn cuts_text(input: Seq<char>, indices: Seq<usize>) -> bool {
    forall|i: int|
        0 <= i < indices.len() ==> indices[i] <= byte_len(input) && is_char_boundary(
            encode_utf8(input),
            #[trigger] indices[i] as int,
        )
}

/// Whether `pieces` and `last` are `input` cut at the byte offsets `indices`.
pub open spec fn is_cut_at<const N: usize>(
    input: Seq<char>,
    indices: Seq<usize>,
    pieces: [&str; N],
    last: &str,
) -> bool {
    &&& forall|i: int|
        0 <= i < N ==> encode_utf8((#[trigger] pieces@[i])@) == encode_utf8(input).subrange(
            piece_start(indices, i),
            indices[i] as int,
        )
    &&& encode_utf8(last@) == encode_utf8(input).subrange(
        piece_start(indices, N as int),
        byte_len(input) as int,
    )
}

/// A char boundary of a text is a char boundary of its suffix that begins at an earlier
/// char boundary.
proof fn lemma_boundary_in_suffix(bytes: Seq<u8>, a: int, b: int)
    requires
        valid_utf8(bytes),
        0 <= a <= b <= bytes.len(),
        is_char_boundary(bytes, a),
        is_char_boundary(bytes, b),
    ensures
        valid_utf8(bytes.subrange(a, bytes.len() as int)),
        is_char_boundary(bytes.subrange(a, bytes.len() as int), b - a),
{
    let suffix = bytes.subrange(a, bytes.len() as int);
    valid_utf8_split(bytes, a);
    if b == a {
    } else if b == bytes.len() {
        is_char_boundary_start_end_of_seq(suffix);
    } else {
        is_char_boundary_iff_not_is_continuation_byte(bytes, b);
        is_char_boundary_iff_not_is_continuation_byte(suffix, b - a);
    }
}

/// Cuts `input` at each of the byte offsets `indices`, which ascend, into the pieces
/// before them and the piece behind the last.
pub fn n_times<'s, const N: usize>(input: &'s str, indices: &Sorted<usize, N>) -> (r: (
    [&'s str; N],
    &'s str,
))
    requires
        cuts_text(input@, indices@),
    ensures
        is_cut_at(input@, indices@, r.0, r.1),
{
    let offsets = indices.as_array();
    let ghost bytes = encode_utf8(input@);
    let mut pieces: [&'s str; N] = [input;N];
    let mut rest: &'s str = input;
    let mut start: usize = 0;
    let mut i: usize = 0;
    proof {
        encode_utf8_valid_utf8(input@);
        is_char_boundary_start_end_of_seq(bytes);
        assert(bytes.subrange(0, bytes.len() as int) =~= bytes);
    }
    while i < N
        invariant
            i <= N,
            offsets@ == indices@,
            strictly_ascending(indices@),
            cuts_text(input@, indices@),
            bytes == encode_utf8(input@),
            valid_utf8(bytes),
            start == piece_start(indices@, i as int),
            start <= bytes.len(),
            is_char_boundary(bytes, start as int),
            encode_utf8(rest@) == bytes.subrange(start as int, bytes.len() as int),
            forall|j: int|
                0 <= j < i ==> encode_utf8((#[trigger] pieces@[j])@) == bytes.subrange(
                    piece_start(indices@, j),
                    indices@[j] as int,
                ),
        decreases N - i,
    {
        let next = offsets[i];
        proof {
            assert(indices@[i as int] <= byte_len(input@));
            if i > 0 {
                assert(indices@[i - 1].rank() < indices@[i as int].rank());
            }
            lemma_boundary_in_suffix(bytes, start as int, next as int);
        }
        let (head, tail) = rest.split_at(next - start);
        proof {
            let suffix = bytes.subrange(start as int, bytes.len() as int);
            assert(suffix.subrange(0, next - start) =~= bytes.subrange(start as int, next as int));
            assert(suffix.subrange(next - start, suffix.len() as int) =~= bytes.subrange(
                next as int,
                bytes.len() as int,
            ));
        }
        pieces[i] = head;
        rest = tail;
        start = next;
        i += 1;
    }
    (pieces, rest)
}

/// Cuts `input` as [`n_times`] does, if it can be cut at every one of `indices`, and
/// says why not if it cannot.
pub fn try_n_times<'s, const N: usize>(input: &'s str, indices: &Sorted<usize, N>) -> (r: Result<
    ([&'s str; N], &'s str),
    NTimesError,
>)
    ensures
        r is Ok <==> cuts_text(input@, indices@),
        r matches Ok(cut) ==> is_cut_at(input@, indices@, cut.0, cut.1),
        r matches Err(e) ==> (e == NTimesError::IndexOutOfBounds <==> N > 0 && indices@[N - 1]
            > byte_len(input@)),
{
    let offsets = indices.as_array();
    let length = byte_length(input);
    if N > 0 && offsets[N - 1] > length {
        return Err(NTimesError::IndexOutOfBounds);
    }
    let mut i: usize = 0;
    while i < N
        invariant
            i <= N,
            offsets@ == indices@,
            strictly_ascending(indices@),
            length == byte_len(input@),
            N > 0 ==> indices@[N - 1] <= length,
            forall|j: int|
                0 <= j < i ==> indices@[j] <= length && is_char_boundary(
                    encode_utf8(input@),
                    #[trigger] indices@[j] as int,
                ),
        decreases N - i,
    {
        proof {
            if i < N - 1 {
                assert(indices@[i as int].rank() < indices@[N - 1].rank());
            }
        }
        if !input.is_char_boundary(offsets[i]) {
            return Err(NTimesError::NotCharBoundary);
        }
        i += 1;
    }
    Ok(n_times(input, indices))
}

} // verus!
