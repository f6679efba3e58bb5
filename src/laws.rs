//! Laws that relate the operations of the set to each other.

use vstd::prelude::*;
use crate::slots::{ascending, lemma_ascending_unique};
use crate::uset::{USet, sym_diff};

verus! {

/// The ascending order on keys.
pub open spec fn key_le(a: usize, b: usize) -> bool {
    a <= b
}

/// Building a set from duplicate-free keys and listing it gives those keys sorted in
/// ascending order.
pub proof fn law_round_trip(keys: Seq<usize>, s: &USet)
    requires
        keys.no_duplicates(),
        s.wf(),
        s@ == keys.to_set(),
    ensures
        s.elems() == keys.sort_by(|a: usize, b: usize| key_le(a, b)),
        s.elems().len() == keys.len(),
{
    let leq = |a: usize, b: usize| key_le(a, b);
    assert(vstd::relations::total_ordering(leq)) by {
        assert(vstd::relations::reflexive(leq));
        assert(vstd::relations::antisymmetric(leq));
        assert(vstd::relations::transitive(leq));
        assert(vstd::relations::strongly_connected(leq));
    }
    let sorted = keys.sort_by(leq);
    keys.lemma_sort_by_ensures(leq);
    keys.to_multiset_ensures();
    sorted.to_multiset_ensures();
    keys.lemma_multiset_has_no_duplicates();
    sorted.lemma_multiset_has_no_duplicates_conv();
    assert(ascending(sorted)) by {
        assert forall|i: int, j: int| 0 <= i < j < sorted.len() implies sorted[i] < sorted[j] by {
            assert(leq(sorted[i], sorted[j]));
        }
    }
    s.lemma_elems();
    assert forall|k: usize| s.elems().contains(k) <==> sorted.contains(k) by {
        assert(s.elems().to_set().contains(k) == s.elems().contains(k));
        assert(keys.to_set().contains(k) == keys.contains(k));
        assert(keys.to_multiset().count(k) == sorted.to_multiset().count(k));
        assert(keys.contains(k) <==> keys.to_multiset().count(k) > 0);
        assert(sorted.contains(k) <==> sorted.to_multiset().count(k) > 0);
    }
    lemma_ascending_unique(s.elems(), sorted);
}

/// The empty set is an identity of union, union is idempotent, and the size of a
/// union is the sum of the sizes less the size of the intersection.
pub proof fn law_union(a: &USet, b: &USet)
    requires
        a.wf(),
        b.wf(),
    ensures
        a@.union(Set::<usize>::empty()) == a@,
        a@.union(a@) == a@,
        a@.union(b@).len() == a@.len() + b@.len() - a@.intersect(b@).len(),
{
    a.lemma_elems();
    b.lemma_elems();
    assert(a@.union(Set::<usize>::empty()) =~= a@);
    assert(a@.union(a@) =~= a@);
    vstd::set_lib::lemma_set_intersect_union_lens(a@, b@);
}

/// A set less itself is empty, and a set less the empty set is itself.
pub proof fn law_difference(a: &USet)
    requires
        a.wf(),
    ensures
        a@.difference(a@) == Set::<usize>::empty(),
        a@.difference(Set::<usize>::empty()) == a@,
{
    assert(a@.difference(a@) =~= Set::<usize>::empty());
    assert(a@.difference(Set::<usize>::empty()) =~= a@);
}

/// Intersection is idempotent; the symmetric difference of a set with itself is
/// empty, and with the empty set is the set itself.
pub proof fn law_intersect_xor(a: &USet)
    requires
        a.wf(),
    ensures
        a@.intersect(a@) == a@,
        sym_diff(a@, a@) == Set::<usize>::empty(),
        sym_diff(a@, Set::<usize>::empty()) == a@,
{
    assert(a@.intersect(a@) =~= a@);
    assert(sym_diff(a@, a@) =~= Set::<usize>::empty());
    assert(sym_diff(a@, Set::<usize>::empty()) =~= a@);
}

} // verus!
