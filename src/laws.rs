//! What popping a heap until it is empty hands out, for any of the heaps:
//! each of their `pop`s returns a least value of what is held and leaves the
//! rest.
use crate::order::{is_least, leq, refs_ms};
use vstd::laws_cmp::obeys_cmp;
use vstd::multiset::Multiset;
use vstd::prelude::*;

verus! {

/// `s` is a possible run of pops that empties a heap holding `ms`: each
/// element is a least value of what is left at that point.
pub open spec fn is_extraction<T: Ord>(s: Seq<T>, ms: Multiset<T>) -> bool
    decreases s.len(),
{
    if s.len() == 0 {
        ms.len() == 0
    } else {
        is_least(s[0], ms) && is_extraction(s.drop_first(), ms.remove(s[0]))
    }
}

/// No element of `s` is greater than one after it.
pub open spec fn is_sorted<T: Ord>(s: Seq<T>) -> bool {
    forall|i: int, j: int| 0 <= i <= j < s.len() ==> leq(s[i], s[j])
}

/// Popping a heap until it is empty hands out exactly its values, each as
/// often as it is held, in non-decreasing order.
pub proof fn lemma_extraction_sorted<T: Ord>(s: Seq<T>, ms: Multiset<T>)
    requires
        obeys_cmp::<T>(),
        is_extraction(s, ms),
    ensures
        is_sorted(s),
        s.to_multiset() == ms,
        s.len() == ms.len(),
    decreases s.len(),
{
    broadcast use vstd::seq_lib::group_to_multiset_ensures;

    if s.len() == 0 {
        assert(ms =~= Multiset::empty());
        assert(s.to_multiset() =~= Multiset::empty());
    } else {
        let rest = s.drop_first();
        lemma_extraction_sorted(rest, ms.remove(s[0]));
        assert(s.remove(0) == rest);
        assert(s.to_multiset() =~= ms) by {
            assert(rest.to_multiset() == s.to_multiset().remove(s[0]));
            assert(s.to_multiset().contains(s[0])) by {
                assert(s.contains(s[0]));
            }
            assert(ms.remove(s[0]).insert(s[0]) =~= ms);
            assert(s.to_multiset().remove(s[0]).insert(s[0]) =~= s.to_multiset());
        }
        assert forall|i: int, j: int| 0 <= i <= j < s.len() implies leq(s[i], s[j]) by {
            if i == 0 {
                assert(ms.contains(s[j])) by {
                    assert(s.contains(s[j]));
                }
            } else {
                assert(s[i] == rest[i - 1] && s[j] == rest[j - 1]);
            }
        }
    }
}

/// Pushing the values of `pushed` onto an empty heap and then popping until
/// it is empty yields those values sorted.
pub proof fn lemma_pushes_then_pops_sort<T: Ord>(pushed: Seq<T>, popped: Seq<T>)
    requires
        obeys_cmp::<T>(),
        is_extraction(popped, pushed.to_multiset()),
    ensures
        is_sorted(popped),
        popped.to_multiset() == pushed.to_multiset(),
{
    lemma_extraction_sorted(popped, pushed.to_multiset());
}

/// Melding two heaps and popping the result until it is empty yields the
/// values of both, each as often as the two held it together, in
/// non-decreasing order.
pub proof fn lemma_meld_then_pops<T: Ord>(a: Multiset<T>, b: Multiset<T>, popped: Seq<T>)
    requires
        obeys_cmp::<T>(),
        is_extraction(popped, a.add(b)),
    ensures
        is_sorted(popped),
        popped.to_multiset() == a.add(b),
        popped.len() == a.len() + b.len(),
{
    lemma_extraction_sorted(popped, a.add(b));
}

/// Walking a heap with `iter` visits as many values as popping it until it
/// is empty hands out, and the same values, each as often.
pub proof fn lemma_walk_matches_pops<T: Ord>(walked: Seq<&T>, ms: Multiset<T>, popped: Seq<T>)
    requires
        obeys_cmp::<T>(),
        refs_ms(walked) == ms,
        is_extraction(popped, ms),
    ensures
        walked.len() == popped.len(),
        refs_ms(walked) == popped.to_multiset(),
{
    broadcast use vstd::seq_lib::group_to_multiset_ensures;

    lemma_extraction_sorted(popped, ms);
    assert(walked.map_values(|x: &T| *x).len() == walked.len());
}

} // verus!
