//! First matches in sequences, and the tables keyed by name built on them.
use vstd::prelude::*;

verus! {

/// The index of the first element that meets `f`, if any.
#[verifier::opaque]
pub open spec fn first_match<A>(s: Seq<A>, f: spec_fn(A) -> bool) -> Option<int> {
    if exists|i: int| 0 <= i < s.len() && f(s[i]) {
        Some(choose|i: int| 0 <= i < s.len() && f(s[i]) && forall|j: int| 0 <= j < i ==> !f(s[j]))
    } else {
        None
    }
}

pub proof fn lemma_first_match_at<A>(s: Seq<A>, f: spec_fn(A) -> bool, i: int)
    requires
        0 <= i < s.len(),
        f(s[i]),
        forall|j: int| 0 <= j < i ==> !f(s[j]),
    ensures
        first_match(s, f) == Some(i),
{
    reveal(first_match);
    let c = choose|c: int| 0 <= c < s.len() && f(s[c]) && forall|j: int| 0 <= j < c ==> !f(s[j]);
    assert(0 <= c < s.len() && f(s[c]) && forall|j: int| 0 <= j < c ==> !f(s[j]));
    if c > i {
        assert(!f(s[i]));
    }
}

proof fn lemma_first_match_from<A>(s: Seq<A>, f: spec_fn(A) -> bool, w: int)
    requires
        0 <= w < s.len(),
        f(s[w]),
    ensures
        first_match(s, f) matches Some(i) && 0 <= i <= w && f(s[i]) && forall|j: int| 0 <= j < i ==> !f(s[j]),
    decreases w,
{
    reveal(first_match);
    if exists|j: int| 0 <= j < w && f(s[j]) {
        let j = choose|j: int| 0 <= j < w && f(s[j]);
        lemma_first_match_from(s, f, j);
    } else {
        lemma_first_match_at(s, f, w);
    }
}

/// `first_match` gives the first element that meets the test, or `None` when none does.
pub proof fn lemma_first_match<A>(s: Seq<A>, f: spec_fn(A) -> bool)
    ensures
        match first_match(s, f) {
            Some(i) => 0 <= i < s.len() && f(s[i]) && forall|j: int| 0 <= j < i ==> !f(s[j]),
            None => forall|j: int| 0 <= j < s.len() ==> !f(s[j]),
        },
{
    reveal(first_match);
    if exists|i: int| 0 <= i < s.len() && f(s[i]) {
        let w = choose|i: int| 0 <= i < s.len() && f(s[i]);
        lemma_first_match_from(s, f, w);
    }
}

/// The test "the entry is named `k`".
pub open spec fn named<V>(k: Seq<char>) -> spec_fn((Seq<char>, V)) -> bool {
    |e: (Seq<char>, V)| e.0 == k
}

/// The index of the first entry named `k` in a table, if any.
pub open spec fn key_index<V>(s: Seq<(Seq<char>, V)>, k: Seq<char>) -> Option<int> {
    first_match(s, named::<V>(k))
}

/// The test "equals `x`".
pub open spec fn equals<A>(x: A) -> spec_fn(A) -> bool {
    |y: A| y == x
}

/// The index of the first occurrence of `x`, if any.
pub open spec fn position<A>(s: Seq<A>, x: A) -> Option<int> {
    first_match(s, equals(x))
}

/// No two entries of a table have the same name.
pub open spec fn distinct_keys<V>(s: Seq<(Seq<char>, V)>) -> bool {
    forall|i: int, j: int| 0 <= i < j < s.len() ==> s[i].0 != s[j].0
}

} // verus!
