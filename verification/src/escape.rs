//! What escaping means for a text: which of its tokens are escaped, where it splits
//! and what sanitizing removes.
//!
//! Everything here is stated over sequences of `char`, a single escape token and a set
//! of delimiters. An escape token that is not itself escaped suppresses the role of the
//! token that follows it, whatever that token is.

use vstd::prelude::*;

verus! {

/// Whether the token at index `i` is suppressed by an escape right before it.
///
/// The token before it has to be the escape token and must not be escaped itself. The
/// index `s.len()` is allowed and tells whether an escape is left pending at the end.
pub open spec fn is_escaped(s: Seq<char>, esc: char, i: int) -> bool
    decreases i,
{
    0 < i <= s.len() && s[i - 1] == esc && !is_escaped(s, esc, i - 1)
}

/// The tokens whose role an escape can suppress: the delimiters and the escape itself.
pub open spec fn is_significant(c: char, esc: char, delims: Set<char>) -> bool {
    c == esc || delims.contains(c)
}

/// Whether index `i` holds a delimiter that is not escaped, so that the text splits
/// there.
pub open spec fn is_split_point(s: Seq<char>, esc: char, delims: Set<char>, i: int) -> bool {
    0 <= i < s.len() && s[i] != esc && delims.contains(s[i]) && !is_escaped(s, esc, i)
}

/// Whether index `i` holds an escape that suppresses a significant token right after
/// it. Sanitizing removes exactly these escapes.
pub open spec fn is_escape_pair(s: Seq<char>, esc: char, delims: Set<char>, i: int) -> bool {
    0 <= i < s.len() - 1 && s[i] == esc && !is_escaped(s, esc, i) && is_significant(
        s[i + 1],
        esc,
        delims,
    )
}

/// Whether sanitizing `s` removes anything.
pub open spec fn has_escape_pair(s: Seq<char>, esc: char, delims: Set<char>) -> bool {
    exists|i: int| is_escape_pair(s, esc, delims, i)
}

/// No index from `a` up to `b`, `b` left out, is a split point.
pub open spec fn no_split_between(
    s: Seq<char>,
    esc: char,
    delims: Set<char>,
    a: int,
    b: int,
) -> bool {
    forall|j: int| a <= j < b ==> !is_split_point(s, esc, delims, j)
}

/// No index from `a` up to `b`, `b` left out, holds the escape of an escape pair.
pub open spec fn no_pair_between(
    s: Seq<char>,
    esc: char,
    delims: Set<char>,
    a: int,
    b: int,
) -> bool {
    forall|j: int| a <= j < b ==> !is_escape_pair(s, esc, delims, j)
}

/// The first split point at or after `from`, or `s.len()` if there is none.
pub open spec fn next_split(s: Seq<char>, esc: char, delims: Set<char>, from: int) -> int
    decreases s.len() - from,
{
    if from >= s.len() {
        s.len() as int
    } else if is_split_point(s, esc, delims, from) {
        from
    } else {
        next_split(s, esc, delims, from + 1)
    }
}

/// The segments of `s`: the stretches between its split points, in order. Scanning
/// starts afresh behind each split point.
pub open spec fn segments(s: Seq<char>, esc: char, delims: Set<char>) -> Seq<Seq<char>>
    decreases s.len(),
{
    let k = next_split(s, esc, delims, 0);
    if 0 <= k < s.len() {
        seq![s.take(k)] + segments(s.skip(k + 1), esc, delims)
    } else {
        seq![s]
    }
}

/// The delimiters at the split points of `s`, in order.
pub open spec fn separators(s: Seq<char>, esc: char, delims: Set<char>) -> Seq<char>
    decreases s.len(),
{
    let k = next_split(s, esc, delims, 0);
    if 0 <= k < s.len() {
        seq![s[k]] + separators(s.skip(k + 1), esc, delims)
    } else {
        Seq::empty()
    }
}

/// The segments put together again, with one separator between each two neighbours.
pub open spec fn join(segs: Seq<Seq<char>>, seps: Seq<char>) -> Seq<char>
    decreases segs.len(),
{
    if segs.len() == 0 {
        Seq::empty()
    } else if segs.len() == 1 || seps.len() == 0 {
        segs[0]
    } else {
        segs[0] + seq![seps[0]] + join(segs.drop_first(), seps.drop_first())
    }
}

/// The first `n` tokens of `s` without the escapes of its escape pairs.
pub open spec fn sanitize_prefix(s: Seq<char>, esc: char, delims: Set<char>, n: int) -> Seq<char>
    decreases n,
{
    if n <= 0 {
        Seq::empty()
    } else if is_escape_pair(s, esc, delims, n - 1) {
        sanitize_prefix(s, esc, delims, n - 1)
    } else {
        sanitize_prefix(s, esc, delims, n - 1).push(s[n - 1])
    }
}

/// The text `s` without the escapes of its escape pairs; every other token stays, in
/// its place.
pub open spec fn sanitize(s: Seq<char>, esc: char, delims: Set<char>) -> Seq<char> {
    sanitize_prefix(s, esc, delims, s.len() as int)
}

/// The segments of `s`, each of them sanitized.
pub open spec fn sanitized_segments(s: Seq<char>, esc: char, delims: Set<char>) -> Seq<
    Seq<char>,
> {
    segments(s, esc, delims).map_values(|seg: Seq<char>| sanitize(seg, esc, delims))
}

/// `next_split` returns a split point or the length of the text, and no split point
/// lies between `from` and what it returns.
pub proof fn lemma_next_split(s: Seq<char>, esc: char, delims: Set<char>, from: int)
    requires
        0 <= from <= s.len(),
    ensures
        from <= next_split(s, esc, delims, from) <= s.len(),
        next_split(s, esc, delims, from) < s.len() ==> is_split_point(
            s,
            esc,
            delims,
            next_split(s, esc, delims, from),
        ),
        forall|j: int|
            from <= j < next_split(s, esc, delims, from) ==> !is_split_point(s, esc, delims, j),
    decreases s.len() - from,
{
    if from < s.len() && !is_split_point(s, esc, delims, from) {
        lemma_next_split(s, esc, delims, from + 1);
    }
}

/// An index that is a split point or the length of the text, with no split point
/// between `from` and it, is what `next_split` returns.
pub proof fn lemma_next_split_unique(
    s: Seq<char>,
    esc: char,
    delims: Set<char>,
    from: int,
    k: int,
)
    requires
        0 <= from <= k <= s.len(),
        k < s.len() ==> is_split_point(s, esc, delims, k),
        forall|j: int| from <= j < k ==> !is_split_point(s, esc, delims, j),
    ensures
        next_split(s, esc, delims, from) == k,
    decreases k - from,
{
    if from < k {
        lemma_next_split_unique(s, esc, delims, from + 1, k);
    }
}

/// Behind a split point the scan starts afresh without loss: what is escaped, a split
/// point or an escape pair there is so in the whole text, and the other way round.
pub proof fn lemma_fresh_behind_split(s: Seq<char>, esc: char, delims: Set<char>, k: int, i: int)
    requires
        is_split_point(s, esc, delims, k),
        0 <= i <= s.len() - k - 1,
    ensures
        is_escaped(s.skip(k + 1), esc, i) == is_escaped(s, esc, k + 1 + i),
        is_split_point(s.skip(k + 1), esc, delims, i) == is_split_point(s, esc, delims, k + 1 + i),
        is_escape_pair(s.skip(k + 1), esc, delims, i) == is_escape_pair(s, esc, delims, k + 1 + i),
    decreases i,
{
    if i > 0 {
        lemma_fresh_behind_split(s, esc, delims, k, i - 1);
    }
}

/// Splitting and joining again gives the text back: there is one separator less than
/// there are segments, each separator is a delimiter, and the segments joined by the
/// separators are the text.
pub proof fn lemma_join_segments(s: Seq<char>, esc: char, delims: Set<char>)
    ensures
        segments(s, esc, delims).len() == separators(s, esc, delims).len() + 1,
        forall|i: int|
            0 <= i < separators(s, esc, delims).len() ==> delims.contains(
                #[trigger] separators(s, esc, delims)[i],
            ),
        join(segments(s, esc, delims), separators(s, esc, delims)) == s,
    decreases s.len(),
{
    let k = next_split(s, esc, delims, 0);
    lemma_next_split(s, esc, delims, 0);
    if k < s.len() {
        let rest = s.skip(k + 1);
        lemma_join_segments(rest, esc, delims);
        let segs = segments(s, esc, delims);
        let seps = separators(s, esc, delims);
        assert(segs.drop_first() =~= segments(rest, esc, delims));
        assert(seps.drop_first() =~= separators(rest, esc, delims));
        assert(s.take(k) + seq![s[k]] + rest =~= s);
        assert forall|i: int| 0 <= i < seps.len() implies delims.contains(#[trigger] seps[i]) by {
            if i > 0 {
                assert(seps[i] == separators(rest, esc, delims)[i - 1]);
            }
        }
    }
}

/// Every token that is not the escape of an escape pair is in the sanitized text, at
/// the index that counts the tokens kept before it.
pub proof fn lemma_sanitize_keeps(s: Seq<char>, esc: char, delims: Set<char>, i: int)
    requires
        0 <= i < s.len(),
        !is_escape_pair(s, esc, delims, i),
    ensures
        sanitize_prefix(s, esc, delims, i).len() < sanitize(s, esc, delims).len(),
        sanitize(s, esc, delims)[sanitize_prefix(s, esc, delims, i).len() as int] == s[i],
{
    let kept = sanitize_prefix(s, esc, delims, i);
    assert(sanitize_prefix(s, esc, delims, i + 1) == kept.push(s[i]));
    lemma_sanitize_extends(s, esc, delims, i + 1, s.len() as int);
    assert(sanitize(s, esc, delims).take(kept.len() as int + 1)[kept.len() as int] == s[i]);
}

/// The escape of an escape pair is removed and the token it suppressed stays.
pub proof fn lemma_sanitize_drops(s: Seq<char>, esc: char, delims: Set<char>, i: int)
    requires
        is_escape_pair(s, esc, delims, i),
    ensures
        sanitize_prefix(s, esc, delims, i + 2) == sanitize_prefix(s, esc, delims, i).push(
            s[i + 1],
        ),
{
    assert(is_escaped(s, esc, i + 1));
    assert(sanitize_prefix(s, esc, delims, i + 1) == sanitize_prefix(s, esc, delims, i));
}

/// The last token of a text is never removed: an escape left pending at the end stays.
pub proof fn lemma_sanitize_keeps_last(s: Seq<char>, esc: char, delims: Set<char>)
    requires
        s.len() > 0,
    ensures
        sanitize(s, esc, delims).len() > 0,
        sanitize(s, esc, delims).last() == s.last(),
{
}

/// A text without escape pairs is its own sanitized form.
pub proof fn lemma_sanitize_without_pairs(s: Seq<char>, esc: char, delims: Set<char>)
    requires
        !has_escape_pair(s, esc, delims),
    ensures
        sanitize(s, esc, delims) == s,
{
    lemma_sanitize_run(s, esc, delims, 0, s.len() as int);
    assert(Seq::<char>::empty() + s.subrange(0, s.len() as int) =~= s);
}

/// Segments depend on the delimiters only as far as the text holds them: two sets that
/// agree on every token of the text split and sanitize it alike.
pub proof fn lemma_same_delimiters_in_text(
    s: Seq<char>,
    esc: char,
    delims: Set<char>,
    other: Set<char>,
)
    requires
        forall|i: int| 0 <= i < s.len() ==> delims.contains(s[i]) == other.contains(s[i]),
    ensures
        segments(s, esc, delims) == segments(s, esc, other),
        sanitized_segments(s, esc, delims) == sanitized_segments(s, esc, other),
    decreases s.len(),
{
    lemma_next_split(s, esc, delims, 0);
    let k = next_split(s, esc, delims, 0);
    assert forall|j: int| 0 <= j <= k && j < s.len() implies is_split_point(s, esc, other, j)
        == is_split_point(s, esc, delims, j) by {
        assert(delims.contains(s[j]) == other.contains(s[j]));
    }
    lemma_next_split_unique(s, esc, other, 0, k);
    lemma_sanitized_segments_unfold(s, esc, delims);
    lemma_sanitized_segments_unfold(s, esc, other);
    if k < s.len() {
        let head = s.take(k);
        let rest = s.skip(k + 1);
        assert forall|i: int| 0 <= i < head.len() implies delims.contains(head[i])
            == other.contains(head[i]) by {
            assert(head[i] == s[i]);
        }
        assert forall|i: int| 0 <= i < rest.len() implies delims.contains(rest[i])
            == other.contains(rest[i]) by {
            assert(rest[i] == s[k + 1 + i]);
        }
        lemma_sanitize_same_delimiters(head, esc, delims, other, head.len() as int);
        lemma_same_delimiters_in_text(rest, esc, delims, other);
    } else {
        lemma_sanitize_same_delimiters(s, esc, delims, other, s.len() as int);
    }
}

/// A text that holds neither the escape nor a delimiter is its own single segment, and
/// sanitizing leaves it as it is.
pub proof fn lemma_plain_text(s: Seq<char>, esc: char, delims: Set<char>)
    requires
        forall|i: int| 0 <= i < s.len() ==> !is_significant(#[trigger] s[i], esc, delims),
    ensures
        segments(s, esc, delims) == seq![s],
        !has_escape_pair(s, esc, delims),
        sanitize(s, esc, delims) == s,
        sanitized_segments(s, esc, delims) == seq![s],
{
    lemma_next_split_unique(s, esc, delims, 0, s.len() as int);
    lemma_sanitize_without_pairs(s, esc, delims);
    assert(sanitized_segments(s, esc, delims) =~= seq![s]);
}

/// The empty text has exactly one segment, which is empty.
pub proof fn lemma_empty_text(esc: char, delims: Set<char>)
    ensures
        segments(Seq::empty(), esc, delims) == seq![Seq::<char>::empty()],
        sanitized_segments(Seq::empty(), esc, delims) == seq![Seq::<char>::empty()],
{
    lemma_plain_text(Seq::empty(), esc, delims);
}

/// Whether a token is escaped depends only on the tokens before it.
pub proof fn lemma_is_escaped_prefix(s: Seq<char>, t: Seq<char>, esc: char, i: int)
    requires
        0 <= i <= s.len(),
        i <= t.len(),
        forall|j: int| 0 <= j < i ==> s[j] == t[j],
    ensures
        is_escaped(s, esc, i) == is_escaped(t, esc, i),
    decreases i,
{
    if i > 0 {
        lemma_is_escaped_prefix(s, t, esc, i - 1);
    }
}

/// Cutting a text behind an escape pair keeps the pair.
pub proof fn lemma_escape_pair_take(s: Seq<char>, esc: char, delims: Set<char>, k: int, j: int)
    requires
        0 <= j,
        j + 1 < k <= s.len(),
    ensures
        is_escape_pair(s.take(k), esc, delims, j) == is_escape_pair(s, esc, delims, j),
{
    lemma_is_escaped_prefix(s.take(k), s, esc, j);
}

/// Where no escape pair lies between `a` and `b`, sanitizing copies that stretch.
pub proof fn lemma_sanitize_run(s: Seq<char>, esc: char, delims: Set<char>, a: int, b: int)
    requires
        0 <= a <= b <= s.len(),
        forall|j: int| a <= j < b ==> !is_escape_pair(s, esc, delims, j),
    ensures
        sanitize_prefix(s, esc, delims, b) == sanitize_prefix(s, esc, delims, a) + s.subrange(
            a,
            b,
        ),
    decreases b - a,
{
    if a < b {
        lemma_sanitize_run(s, esc, delims, a, b - 1);
        assert(s.subrange(a, b - 1).push(s[b - 1]) =~= s.subrange(a, b));
        assert(sanitize_prefix(s, esc, delims, b) =~= sanitize_prefix(s, esc, delims, a)
            + s.subrange(a, b));
    } else {
        assert(sanitize_prefix(s, esc, delims, b) =~= sanitize_prefix(s, esc, delims, a)
            + s.subrange(a, b));
    }
}

/// Sanitizing a prefix of a text that does not end inside an escape pair gives the
/// sanitized text up to there.
pub proof fn lemma_sanitize_take(s: Seq<char>, esc: char, delims: Set<char>, k: int, n: int)
    requires
        0 <= n <= k <= s.len(),
        n == k ==> !is_escape_pair(s, esc, delims, k - 1),
    ensures
        sanitize_prefix(s.take(k), esc, delims, n) == sanitize_prefix(s, esc, delims, n),
    decreases n,
{
    if n > 0 {
        lemma_sanitize_take(s, esc, delims, k, n - 1);
        lemma_is_escaped_prefix(s.take(k), s, esc, n - 1);
    }
}

/// The sanitized text grows with the prefix: what was kept of a shorter prefix stays
/// in front.
pub proof fn lemma_sanitize_extends(s: Seq<char>, esc: char, delims: Set<char>, a: int, b: int)
    requires
        0 <= a <= b <= s.len(),
    ensures
        sanitize_prefix(s, esc, delims, a).len() <= sanitize_prefix(s, esc, delims, b).len(),
        sanitize_prefix(s, esc, delims, a) == sanitize_prefix(s, esc, delims, b).take(
            sanitize_prefix(s, esc, delims, a).len() as int,
        ),
    decreases b - a,
{
    let pa = sanitize_prefix(s, esc, delims, a);
    if a < b {
        lemma_sanitize_extends(s, esc, delims, a, b - 1);
        assert(pa =~= sanitize_prefix(s, esc, delims, b).take(pa.len() as int));
    } else {
        assert(pa =~= pa.take(pa.len() as int));
    }
}

/// The sanitized segments are the sanitized first segment, followed by the sanitized
/// segments of what lies behind the first split point.
pub proof fn lemma_sanitized_segments_unfold(s: Seq<char>, esc: char, delims: Set<char>)
    ensures
        sanitized_segments(s, esc, delims) == if next_split(s, esc, delims, 0) < s.len() {
            seq![sanitize(s.take(next_split(s, esc, delims, 0)), esc, delims)]
                + sanitized_segments(s.skip(next_split(s, esc, delims, 0) + 1), esc, delims)
        } else {
            seq![sanitize(s, esc, delims)]
        },
{
    lemma_next_split(s, esc, delims, 0);
    let k = next_split(s, esc, delims, 0);
    if k < s.len() {
        assert(sanitized_segments(s, esc, delims) =~= seq![sanitize(s.take(k), esc, delims)]
            + sanitized_segments(s.skip(k + 1), esc, delims));
    } else {
        assert(sanitized_segments(s, esc, delims) =~= seq![sanitize(s, esc, delims)]);
    }
}

/// Two delimiter sets that agree on every token of the text sanitize it alike.
pub proof fn lemma_sanitize_same_delimiters(
    s: Seq<char>,
    esc: char,
    delims: Set<char>,
    other: Set<char>,
    n: int,
)
    requires
        0 <= n <= s.len(),
        forall|i: int| 0 <= i < s.len() ==> delims.contains(s[i]) == other.contains(s[i]),
    ensures
        sanitize_prefix(s, esc, delims, n) == sanitize_prefix(s, esc, other, n),
    decreases n,
{
    if n > 0 {
        lemma_sanitize_same_delimiters(s, esc, delims, other, n - 1);
    }
}

} // verus!
