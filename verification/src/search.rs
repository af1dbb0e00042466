//! Finding and counting in sequences.

use vstd::prelude::*;

verus! {

/// Where the first element that satisfies `p` stands.
pub open spec fn first<T>(s: Seq<T>, p: spec_fn(T) -> bool) -> Option<int>
    decreases s.len(),
{
    if s.len() == 0 {
        None
    } else if first(s.drop_last(), p) is Some {
        first(s.drop_last(), p)
    } else if p(s.last()) {
        Some(s.len() - 1)
    } else {
        None
    }
}

/// What [`first`] finds satisfies `p`, and nothing before it does.
pub proof fn lemma_first<T>(s: Seq<T>, p: spec_fn(T) -> bool)
    ensures
        first(s, p) matches Some(i) ==> {
            &&& 0 <= i < s.len()
            &&& p(s[i])
            &&& forall|k: int| 0 <= k < i ==> !p(#[trigger] s[k])
        },
        first(s, p) is None ==> forall|k: int| 0 <= k < s.len() ==> !p(#[trigger] s[k]),
    decreases s.len(),
{
    if s.len() > 0 {
        let rest = s.drop_last();
        lemma_first(rest, p);
        assert forall|k: int| 0 <= k < rest.len() implies #[trigger] s[k] == rest[k] by {}
    }
}

/// The first element that satisfies `p` is where [`first`] says.
pub proof fn lemma_first_is<T>(s: Seq<T>, p: spec_fn(T) -> bool, i: int)
    requires
        0 <= i < s.len(),
        p(s[i]),
        forall|k: int| 0 <= k < i ==> !p(#[trigger] s[k]),
    ensures
        first(s, p) == Some(i),
{
    lemma_first(s, p);
}

/// Where no element satisfies `p`, [`first`] finds none.
pub proof fn lemma_first_none<T>(s: Seq<T>, p: spec_fn(T) -> bool)
    requires
        forall|k: int| 0 <= k < s.len() ==> !p(#[trigger] s[k]),
    ensures
        first(s, p) is None,
{
    lemma_first(s, p);
}

/// How many elements satisfy `p`.
pub open spec fn count<T>(s: Seq<T>, p: spec_fn(T) -> bool) -> nat
    decreases s.len(),
{
    if s.len() == 0 {
        0
    } else {
        count(s.drop_last(), p) + (if p(s.last()) {
            1nat
        } else {
            0nat
        })
    }
}

/// No more elements satisfy `p` than there are.
pub proof fn lemma_count_bound<T>(s: Seq<T>, p: spec_fn(T) -> bool)
    ensures
        count(s, p) <= s.len(),
    decreases s.len(),
{
    if s.len() > 0 {
        lemma_count_bound(s.drop_last(), p);
    }
}

} // verus!
