//! The ordering that the heap sorts by, as spec-level predicates.
//!
//! The heap is generic over `T: PartialOrd`, so its contracts speak of the
//! comparison through `partial_cmp_spec`. [`total_order`] collects the facts
//! that make the comparison a genuine total order agreeing with spec equality;
//! all heap-order guarantees are conditioned on it.

use core::cmp::Ordering;
use vstd::prelude::*;
use vstd::relations::{sorted_by, total_ordering};
use vstd::seq_lib::lemma_sorted_unique;
use vstd::std_specs::cmp::PartialOrdSpec;

verus! {

/// `a` is no greater than `b` under `T`'s comparison.
pub open spec fn le_spec<T: PartialOrd>(a: T, b: T) -> bool {
    a.partial_cmp_spec(&b) matches Some(Ordering::Less | Ordering::Equal)
}

/// `a` is strictly smaller than `b` under `T`'s comparison.
pub open spec fn lt_spec<T: PartialOrd>(a: T, b: T) -> bool {
    a.partial_cmp_spec(&b) == Some(Ordering::Less)
}

/// `T`'s comparison is a total order that agrees with spec equality: its
/// exec comparisons follow `partial_cmp_spec`, any two values are comparable,
/// `le_spec` is transitive and antisymmetric, and `lt_spec` is its strict
/// part. All primitive integer types satisfy this.
pub open spec fn total_order<T: PartialOrd>() -> bool {
    &&& T::obeys_partial_cmp_spec()
    &&& forall|a: T, b: T|
        #![trigger le_spec(a, b)]
        #![trigger le_spec(b, a)]
        le_spec(a, b) || le_spec(b, a)
    &&& forall|a: T, b: T, c: T|
        #![trigger le_spec(a, b), le_spec(b, c)]
        le_spec(a, b) && le_spec(b, c) ==> le_spec(a, c)
    &&& forall|a: T, b: T|
        #![trigger le_spec(a, b), le_spec(b, a)]
        le_spec(a, b) && le_spec(b, a) ==> a == b
    &&& forall|a: T, b: T|
        #![trigger lt_spec(a, b)]
        #![trigger le_spec(b, a)]
        lt_spec(a, b) <==> !le_spec(b, a)
}

/// The sequence is in non-decreasing order under `T`'s comparison.
pub open spec fn sorted_le<T: PartialOrd>(s: Seq<T>) -> bool {
    forall|i: int, j: int| 0 <= i < j < s.len() ==> le_spec(#[trigger] s[i], #[trigger] s[j])
}

/// Law: a multiset has exactly one non-decreasing arrangement. Two
/// non-decreasing sequences holding the same multiset are equal. Since
/// sorting returns a non-decreasing rearrangement of its input, any two
/// sorts of the same multiset agree, and sorting an already sorted
/// sequence — in particular, sorting twice — changes nothing.
pub proof fn lemma_sorted_permutation_unique<T: PartialOrd>(s1: Seq<T>, s2: Seq<T>)
    requires
        total_order::<T>(),
        sorted_le(s1),
        sorted_le(s2),
        s1.to_multiset() == s2.to_multiset(),
    ensures
        s1 == s2,
{
    let leq = |a: T, b: T| le_spec(a, b);
    assert forall|a: T, b: T| #[trigger] leq(a, b) || #[trigger] leq(b, a) by {
        assert(le_spec(a, b) || le_spec(b, a));
    }
    assert(total_ordering(leq)) by {
        assert forall|a: T| #[trigger] leq(a, a) by {
            assert(le_spec(a, a) || le_spec(a, a));
        }
        assert forall|a: T, b: T| #[trigger] leq(a, b) && #[trigger] leq(b, a) implies a == b by {
            assert(le_spec(a, b) && le_spec(b, a));
        }
        assert forall|a: T, b: T, c: T| #[trigger] leq(a, b) && #[trigger] leq(b, c) implies leq(
            a,
            c,
        ) by {
            assert(le_spec(a, b) && le_spec(b, c));
            assert(le_spec(a, c));
        }
    }
    assert(sorted_by(s1, leq));
    assert(sorted_by(s2, leq));
    lemma_sorted_unique(s1, s2, leq);
    assert(s1 =~= s2);
}

/// Law: an order-preserving translation between element types keeps the
/// non-decreasing arrangement in step. If `f` translates `T` to `U` without
/// disturbing the comparison, then the one non-decreasing arrangement of a
/// translated multiset is the translation of the arrangement of the
/// original: heaps built from a sequence and from its translation drain in
/// matching order, element for element.
pub proof fn lemma_order_embedding_agrees<T: PartialOrd, U: PartialOrd>(
    s: Seq<T>,
    u: Seq<U>,
    f: spec_fn(T) -> U,
)
    requires
        total_order::<T>(),
        total_order::<U>(),
        forall|a: T, b: T| #[trigger] le_spec(f(a), f(b)) <==> le_spec(a, b),
        sorted_le(s),
        sorted_le(u),
        u.to_multiset() == s.map_values(f).to_multiset(),
    ensures
        u == s.map_values(f),
{
    let t = s.map_values(f);
    assert forall|i: int, j: int| 0 <= i < j < t.len() implies le_spec(
        #[trigger] t[i],
        #[trigger] t[j],
    ) by {
        assert(le_spec(s[i], s[j]));
        assert(le_spec(f(s[i]), f(s[j])));
    }
    lemma_sorted_permutation_unique(t, u);
}

} // verus!
