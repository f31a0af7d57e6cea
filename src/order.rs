//! The order on stored values as the proofs see it, facts about it, and the
//! multisets of values that the heaps' contracts speak of.
use vstd::laws_cmp::obeys_cmp;
use vstd::laws_cmp::obeys_cmp_ord;
use vstd::laws_cmp::obeys_cmp_partial_ord;
use vstd::laws_cmp::obeys_partial_cmp_spec_properties;
use vstd::laws_eq::obeys_eq_spec_properties;
use vstd::multiset::Multiset;
use vstd::prelude::*;
use vstd::std_specs::cmp::{OrdSpec, PartialEqSpec, PartialOrdSpec};
use core::cmp::Ordering;

verus! {

/// `a` is less than or equal to `b` under `T`'s ordering.
pub open spec fn leq<T: Ord>(a: T, b: T) -> bool {
    a.partial_cmp_spec(&b) matches Some(Ordering::Less | Ordering::Equal)
}

/// `a` compares greater than `b`: what `a > b` returns under a lawful order.
pub open spec fn greater<T: Ord>(a: T, b: T) -> bool {
    a.partial_cmp_spec(&b) == Some(Ordering::Greater)
}

/// `v` is held by `ms` and no element of `ms` is smaller.
pub open spec fn is_least<T: Ord>(v: T, ms: Multiset<T>) -> bool {
    &&& ms.contains(v)
    &&& forall|x: T| ms.contains(x) ==> leq(v, x)
}

/// Any two values compare, and a value is never greater than itself.
pub proof fn lemma_leq_total<T: Ord>(a: T, b: T)
    requires
        obeys_cmp::<T>(),
    ensures
        leq(a, b) || leq(b, a),
        !(a.partial_cmp_spec(&b) == Some(Ordering::Greater)) ==> leq(a, b),
        leq(a, a),
{
    reveal(obeys_cmp_ord);
    reveal(obeys_partial_cmp_spec_properties);
    assert(a.partial_cmp_spec(&b) == Some(a.cmp_spec(&b)));
    assert(b.partial_cmp_spec(&a) == Some(b.cmp_spec(&a)));
    assert(a.partial_cmp_spec(&a) == Some(a.cmp_spec(&a)));
}

/// A lawful order's comparison operators follow `partial_cmp_spec`.
pub proof fn lemma_obeys_partial_cmp<T: Ord>()
    requires
        obeys_cmp::<T>(),
    ensures
        T::obeys_partial_cmp_spec(),
{
    reveal(obeys_cmp_partial_ord);
}

/// `leq` is transitive.
pub proof fn lemma_leq_trans<T: Ord>(a: T, b: T, c: T)
    requires
        obeys_cmp::<T>(),
        leq(a, b),
        leq(b, c),
    ensures
        leq(a, c),
{
    reveal(obeys_cmp_ord);
    reveal(obeys_cmp_partial_ord);
    reveal(obeys_partial_cmp_spec_properties);
    reveal(obeys_eq_spec_properties);
    assert(a.partial_cmp_spec(&c) == Some(a.cmp_spec(&c)));
    assert(c.partial_cmp_spec(&a) == Some(c.cmp_spec(&a)));
    assert(b.partial_cmp_spec(&a) == Some(b.cmp_spec(&a)));
    assert(c.partial_cmp_spec(&b) == Some(c.cmp_spec(&b)));
    if a.partial_cmp_spec(&c) == Some(Ordering::Greater) {
        assert(c.partial_cmp_spec(&a) == Some(Ordering::Less));
        if a.partial_cmp_spec(&b) == Some(Ordering::Less) {
            assert(c.partial_cmp_spec(&b) == Some(Ordering::Less));
        } else {
            assert(a.eq_spec(&b));
            assert(b.eq_spec(&a));
            if b.partial_cmp_spec(&c) == Some(Ordering::Less) {
                assert(c.partial_cmp_spec(&b) == Some(Ordering::Greater));
                assert(c.partial_cmp_spec(&a) == Some(Ordering::Less));
                assert(b.partial_cmp_spec(&a) == Some(Ordering::Greater));
            } else {
                assert(b.eq_spec(&c));
                assert(a.eq_spec(&c));
            }
        }
    }
}

/// The values that a sequence of references points to, in order.
pub open spec fn refs_seq<T>(s: Seq<&T>) -> Seq<T> {
    s.map_values(|x: &T| *x)
}

/// The values that a sequence of references points to.
pub open spec fn refs_ms<T>(s: Seq<&T>) -> Multiset<T> {
    refs_seq(s).to_multiset()
}

/// Adding a reference at the end adds the value it points to.
pub proof fn lemma_refs_push<T>(s: Seq<&T>, x: &T)
    ensures
        refs_seq(s.push(x)) == refs_seq(s).push(*x),
        refs_ms(s.push(x)) == refs_ms(s).insert(*x),
{
    broadcast use vstd::seq_lib::group_to_multiset_ensures;

    assert(s.push(x).map_values(|y: &T| *y) =~= s.map_values(|y: &T| *y).push(*x));
}

} // verus!
