//! Small sequence lemmas shared by the hand classifier and the deck.

use vstd::prelude::*;

verus! {

/// A property of every element survives any reordering of the sequence.
pub proof fn lemma_multiset_all<T>(s: Seq<T>, t: Seq<T>, p: spec_fn(T) -> bool)
    requires
        s.to_multiset() == t.to_multiset(),
        forall|i: int| 0 <= i < s.len() ==> #[trigger] p(s[i]),
    ensures
        forall|j: int| 0 <= j < t.len() ==> #[trigger] p(t[j]),
{
    broadcast use vstd::seq_lib::group_to_multiset_ensures;

    assert forall|j: int| 0 <= j < t.len() implies #[trigger] p(t[j]) by {
        assert(t.contains(t[j]));
        assert(t.to_multiset().count(t[j]) > 0);
        assert(s.to_multiset().count(t[j]) > 0);
        assert(s.contains(t[j]));
        let i = choose|i: int| 0 <= i < s.len() && s[i] == t[j];
        assert(p(s[i]));
    }
}

/// A witness to a property survives any reordering of the sequence.
pub proof fn lemma_multiset_exists<T>(s: Seq<T>, t: Seq<T>, p: spec_fn(T) -> bool)
    requires
        s.to_multiset() == t.to_multiset(),
        exists|i: int| 0 <= i < s.len() && #[trigger] p(s[i]),
    ensures
        exists|j: int| 0 <= j < t.len() && #[trigger] p(t[j]),
{
    broadcast use vstd::seq_lib::group_to_multiset_ensures;

    let i = choose|i: int| 0 <= i < s.len() && #[trigger] p(s[i]);
    assert(s.contains(s[i]));
    assert(s.to_multiset().count(s[i]) > 0);
    assert(t.to_multiset().count(s[i]) > 0);
    assert(t.contains(s[i]));
    let j = choose|j: int| 0 <= j < t.len() && t[j] == s[i];
    assert(p(t[j]));
}

} // verus!
