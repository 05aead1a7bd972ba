//! Sorted, duplicate-free sets of tokens with logarithmic membership tests.

use vstd::prelude::*;
use vstd::seq_lib::*;

pub(crate) mod sealed;
pub mod utf8;

verus! {

/// A value that can stand in a [`Sorted`] set: copyable and totally ordered.
pub trait Token: Copy {
    /// The integer that orders the tokens.
    spec fn rank(self) -> int;

    /// Distinct tokens have distinct ranks.
    proof fn rank_is_injective(a: Self, b: Self)
        requires
            a.rank() == b.rank(),
        ensures
            a == b,
    ;

    /// Whether `self` comes strictly before `other`.
    fn precedes(self, other: Self) -> (r: bool)
        ensures
            r == (self.rank() < other.rank()),
    ;
}

impl Token for char {
    open spec fn rank(self) -> int {
        self as int
    }

    proof fn rank_is_injective(a: Self, b: Self) {
    }

    fn precedes(self, other: Self) -> (r: bool) {
        self < other
    }
}

impl Token for usize {
    open spec fn rank(self) -> int {
        self as int
    }

    proof fn rank_is_injective(a: Self, b: Self) {
    }

    fn precedes(self, other: Self) -> (r: bool) {
        self < other
    }
}

/// Every token ranks strictly below all tokens after it.
pub open spec fn strictly_ascending<T: Token>(s: Seq<T>) -> bool {
    forall|i: int, j: int| 0 <= i < j < s.len() ==> s[i].rank() < s[j].rank()
}

/// Why building a [`Sorted`] set failed.
#[derive(Debug, Clone, Copy, PartialEq, Eq, Structural)]
pub enum SortedError {
    /// The input holds some token more than once.
    DuplicateDelimiter,
}

/// An immutable set of `N` distinct tokens, stored in strictly ascending order.
#[derive(Debug)]
pub struct Sorted<T: Token, const N: usize> {
    items: [T; N],
}

impl<T: Token, const N: usize> Clone for Sorted<T, N> {
    fn clone(&self) -> (r: Self)
        ensures
            r == *self,
    {
        *self
    }
}

impl<T: Token, const N: usize> Copy for Sorted<T, N> {

}

impl<T: Token, const N: usize> View for Sorted<T, N> {
    type V = Seq<T>;

    closed spec fn view(&self) -> Seq<T> {
        self.items@
    }
}

impl<T: Token, const N: usize> Sorted<T, N> {
    #[verifier::type_invariant]
    spec fn inv(&self) -> bool {
        strictly_ascending(self.items@)
    }

    /// Sorts `items` and builds the set from them, unless a token occurs twice.
    pub fn new(items: [T; N]) -> (r: Result<Self, SortedError>)
        ensures
            r is Ok <==> items@.no_duplicates(),
            r matches Ok(set) ==> {
                &&& set@.len() == N
                &&& strictly_ascending(set@)
                &&& set@.to_multiset() == items@.to_multiset()
                &&& forall|t: T| set@.contains(t) <==> items@.contains(t)
            },
            r matches Err(e) ==> e == SortedError::DuplicateDelimiter,
    {
        let mut a = items;
        let mut i: usize = 1;
        while i < N
            invariant
                1 <= i,
                i <= N || N == 0,
                ascending_below(a@, i as int),
                a@.to_multiset() == items@.to_multiset(),
            decreases N - i,
        {
            let mut j: usize = i;
            while j > 0 && a[j].precedes(a[j - 1])
                invariant
                    j <= i < N,
                    a@.to_multiset() == items@.to_multiset(),
                    forall|x: int, y: int|
                        0 <= x < y <= i && x != j && y != j ==> a@[x].rank() <= a@[y].rank(),
                    forall|y: int| j < y <= i ==> a@[j as int].rank() < a@[y].rank(),
                decreases j,
            {
                let ghost before = a@;
                let t = a[j];
                a[j] = a[j - 1];
                a[j - 1] = t;
                proof {
                    lemma_swap_keeps_multiset(before, j - 1, j as int);
                    assert(a@ =~= before.update(j as int, before[j - 1]).update(
                        j - 1,
                        before[j as int],
                    ));
                }
                j -= 1;
            }
            i += 1;
        }
        let mut k: usize = 1;
        while k < N
            invariant
                1 <= k,
                k <= N || N == 0,
                ascending_below(a@, N as int),
                forall|x: int, y: int| 0 <= x < y < k ==> a@[x].rank() < a@[y].rank(),
                a@.to_multiset() == items@.to_multiset(),
            decreases N - k,
        {
            if !a[k - 1].precedes(a[k]) {
                proof {
                    T::rank_is_injective(a@[k - 1], a@[k as int]);
                    if items@.no_duplicates() {
                        lemma_permutation_keeps_no_duplicates(items@, a@);
                    }
                }
                return Err(SortedError::DuplicateDelimiter);
            }
            proof {
                assert forall|x: int, y: int| 0 <= x < y < k + 1 implies a@[x].rank()
                    < a@[y].rank() by {
                    if y == k && x < k - 1 {
                        assert(a@[x].rank() <= a@[k - 1].rank());
                    }
                }
            }
            k += 1;
        }
        proof {
            lemma_strictly_ascending_no_duplicates(a@);
            lemma_permutation_keeps_no_duplicates(a@, items@);
            lemma_permutation_keeps_tokens(a@, items@);
        }
        Ok(Sorted { items: a })
    }

    /// The set of the tokens of `items`, where `items` holds no token twice.
    pub closed spec fn sorted(items: [T; N]) -> Self {
        Sorted {
            items: choose|sorted: [T; N]|
                strictly_ascending(sorted@) && sorted@.to_multiset() == items@.to_multiset(),
        }
    }

    /// Whether `token` is in the set, by binary search; a set of one token is compared
    /// directly.
    pub fn contains(&self, token: T) -> (r: bool)
        ensures
            r == self@.contains(token),
    {
        proof {
            use_type_invariant(self);
        }
        if N == 1 {
            let only = self.items[0];
            let r = !only.precedes(token) && !token.precedes(only);
            proof {
                if r {
                    T::rank_is_injective(only, token);
                    assert(self@[0] == token);
                }
            }
            return r;
        }
        let mut lo: usize = 0;
        let mut hi: usize = N;
        while lo < hi
            invariant
                lo <= hi <= N,
                strictly_ascending(self.items@),
                forall|x: int| 0 <= x < lo ==> self.items@[x].rank() < token.rank(),
                forall|x: int| hi <= x < N ==> token.rank() < self.items@[x].rank(),
            decreases hi - lo,
        {
            let mid: usize = lo + (hi - lo) / 2;
            let m = self.items[mid];
            if m.precedes(token) {
                lo = mid + 1;
            } else if token.precedes(m) {
                hi = mid;
            } else {
                proof {
                    T::rank_is_injective(m, token);
                    assert(self@[mid as int] == token);
                }
                return true;
            }
        }
        false
    }

    /// Whether `escape` is one of the set's own tokens, so that it could not serve as
    /// an escape for them.
    pub fn is_escape_conflict(&self, escape: T) -> (r: bool)
        ensures
            r == self@.contains(escape),
    {
        self.contains(escape)
    }

    /// The tokens, in ascending order.
    pub fn as_array(&self) -> (items: &[T; N])
        ensures
            items@ == self@,
            strictly_ascending(self@),
    {
        proof {
            use_type_invariant(self);
        }
        &self.items
    }
}

impl<T: Token> Sorted<T, 1> {
    /// The set that holds `token` and nothing else.
    pub fn single(token: T) -> (set: Self)
        ensures
            set@ == seq![token],
    {
        let set = Sorted { items: [token] };
        assert(set@ =~= seq![token]);
        set
    }
}

impl<T: Token, const N: usize> TryFrom<[T; N]> for Sorted<T, N> {
    type Error = SortedError;

    /// Sorts `items` and builds the set from them, unless a token occurs twice.
    fn try_from(items: [T; N]) -> (r: Result<Self, SortedError>)
        ensures
            r is Ok <==> items@.no_duplicates(),
            r matches Ok(set) ==> {
                &&& set@.len() == N
                &&& strictly_ascending(set@)
                &&& set@.to_multiset() == items@.to_multiset()
                &&& forall|t: T| set@.contains(t) <==> items@.contains(t)
            },
            r matches Err(e) ==> e == SortedError::DuplicateDelimiter,
    {
        let r = Sorted::new(items);
        proof {
            if let Ok(set) = r {
                let chosen = Self::sorted(items);
                lemma_strictly_ascending_unique(chosen.items@, set.items@);
                assert(chosen.items =~= set.items);
            }
        }
        r
    }
}

impl<T: Token, const N: usize> vstd::std_specs::convert::TryFromSpecImpl<[T; N]> for Sorted<T, N> {
    open spec fn obeys_try_from_spec() -> bool {
        true
    }

    open spec fn try_from_spec(items: [T; N]) -> Result<Self, SortedError> {
        if items@.no_duplicates() {
            Ok(Self::sorted(items))
        } else {
            Err(SortedError::DuplicateDelimiter)
        }
    }
}

impl<T: Token> From<T> for Sorted<T, 1> {
    /// The set that holds `token` and nothing else.
    fn from(token: T) -> (set: Self)
        ensures
            set@ == seq![token],
    {
        let items = [token];
        assert(items =~= [token]);
        let set = Sorted { items };
        assert(set@ =~= seq![token]);
        set
    }
}

impl<T: Token> vstd::std_specs::convert::FromSpecImpl<T> for Sorted<T, 1> {
    open spec fn obeys_from_spec() -> bool {
        true
    }

    closed spec fn from_spec(token: T) -> Self {
        Sorted { items: [token] }
    }
}

/// There is one way only to put given tokens in strictly ascending order.
pub proof fn lemma_strictly_ascending_unique<T: Token>(a: Seq<T>, b: Seq<T>)
    requires
        strictly_ascending(a),
        strictly_ascending(b),
        a.to_multiset() == b.to_multiset(),
    ensures
        a == b,
{
    let at_most = |x: T, y: T| x.rank() <= y.rank();
    assert forall|x: T, y: T| #[trigger] at_most(x, y) && #[trigger] at_most(y, x) implies x
        == y by {
        T::rank_is_injective(x, y);
    }
    assert(vstd::relations::total_ordering(at_most));
    assert(vstd::relations::sorted_by(a, at_most));
    assert(vstd::relations::sorted_by(b, at_most));
    lemma_sorted_unique(a, b, at_most);
}

/// A strictly ascending sequence holds no token twice.
pub proof fn lemma_strictly_ascending_no_duplicates<T: Token>(s: Seq<T>)
    requires
        strictly_ascending(s),
    ensures
        s.no_duplicates(),
{
    assert forall|i: int, j: int| 0 <= i < s.len() && 0 <= j < s.len() && i != j implies s[i]
        != s[j] by {
        if i < j {
            assert(s[i].rank() < s[j].rank());
        } else {
            assert(s[j].rank() < s[i].rank());
        }
    }
}

/// A sequence with the tokens of one that holds no token twice, counted with
/// multiplicity, holds no token twice either.
pub proof fn lemma_permutation_keeps_no_duplicates<T>(a: Seq<T>, b: Seq<T>)
    requires
        a.to_multiset() == b.to_multiset(),
        a.no_duplicates(),
    ensures
        b.no_duplicates(),
{
    a.lemma_multiset_has_no_duplicates();
    b.lemma_multiset_has_no_duplicates_conv();
}

/// Sequences with the same tokens, counted with multiplicity, contain the same tokens.
pub proof fn lemma_permutation_keeps_tokens<T>(a: Seq<T>, b: Seq<T>)
    requires
        a.to_multiset() == b.to_multiset(),
    ensures
        forall|t: T| a.contains(t) <==> b.contains(t),
{
    assert forall|t: T| a.contains(t) <==> b.contains(t) by {
        to_multiset_contains(a, t);
        to_multiset_contains(b, t);
    }
}

/// The first `n` tokens are in ascending order.
spec fn ascending_below<T: Token>(s: Seq<T>, n: int) -> bool {
    forall|i: int, j: int| 0 <= i < j < n ==> s[i].rank() <= s[j].rank()
}

/// Exchanging two tokens of a sequence keeps its tokens, counted with multiplicity.
proof fn lemma_swap_keeps_multiset<T>(s: Seq<T>, i: int, j: int)
    requires
        0 <= i < s.len(),
        0 <= j < s.len(),
    ensures
        s.update(j, s[i]).update(i, s[j]).to_multiset() == s.to_multiset(),
{
    broadcast use vstd::multiset::group_multiset_axioms;

    let mid = s.update(j, s[i]);
    to_multiset_update(s, j, s[i]);
    to_multiset_update(mid, i, s[j]);
    assert(s.contains(s[i]) && s.contains(s[j]));
    to_multiset_contains(s, s[i]);
    to_multiset_contains(s, s[j]);
    assert(mid[i] == s[i]);
    assert forall|t: T| mid.update(i, s[j]).to_multiset().count(t) == s.to_multiset().count(
        t,
    ) by {
    }
    assert(mid.update(i, s[j]).to_multiset() =~= s.to_multiset());
}

} // verus!
