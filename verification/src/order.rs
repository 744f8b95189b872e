//! The ordering relations that the contracts of this crate are written in.
//!
//! The executable code compares elements with `<`, `>` and `<=`. For a type whose
//! operators are specified, each of them returns the relation of the same meaning
//! below. An ordered result is promised for a type that is a [`weak_order`]; the
//! search tree, which keeps a set of values, asks for a [`total_order`].

use core::cmp::Ordering;
use vstd::prelude::*;
use vstd::std_specs::cmp::PartialOrdSpec;

verus! {

/// `a` sorts strictly before `b`: the meaning of `a < b`.
pub open spec fn precedes<T: PartialOrd>(a: T, b: T) -> bool {
    a.partial_cmp_spec(&b) == Some(Ordering::Less)
}

/// `a` sorts strictly after `b`: the meaning of `a > b`.
pub open spec fn follows<T: PartialOrd>(a: T, b: T) -> bool {
    a.partial_cmp_spec(&b) == Some(Ordering::Greater)
}

/// `a` sorts before `b` or ties with it: the meaning of `a <= b`.
pub open spec fn at_most<T: PartialOrd>(a: T, b: T) -> bool {
    a.partial_cmp_spec(&b) == Some(Ordering::Less) || a.partial_cmp_spec(&b) == Some(
        Ordering::Equal,
    )
}

/// The comparison operators of `T` return what the relations of this module say.
pub open spec fn comparable<T: PartialOrd>() -> bool {
    T::obeys_partial_cmp_spec()
}

/// `a` and `b` tie: neither sorts before the other.
pub open spec fn ties<T: PartialOrd>(a: T, b: T) -> bool {
    a.partial_cmp_spec(&b) == Some(Ordering::Equal)
}

/// The laws of a strict weak order: any two values are comparable, `a < b` is
/// `b > a`, `<` is transitive, and so is "not `<`". Values that tie need not be
/// equal.
#[verifier::opaque]
pub open spec fn weak_order_laws<T: PartialOrd>() -> bool {
    &&& forall|a: T, b: T| #![trigger a.partial_cmp_spec(&b)] a.partial_cmp_spec(&b) is Some
    &&& forall|a: T, b: T|
        #![trigger a.partial_cmp_spec(&b)]
        a.partial_cmp_spec(&b) == Some(Ordering::Less) <==> b.partial_cmp_spec(&a) == Some(
            Ordering::Greater,
        )
    &&& forall|a: T, b: T, c: T|
        #![trigger a.partial_cmp_spec(&b), b.partial_cmp_spec(&c)]
        a.partial_cmp_spec(&b) == Some(Ordering::Less) && b.partial_cmp_spec(&c) == Some(
            Ordering::Less,
        ) ==> a.partial_cmp_spec(&c) == Some(Ordering::Less)
    &&& forall|a: T, b: T, c: T|
        #![trigger a.partial_cmp_spec(&b), b.partial_cmp_spec(&c)]
        a.partial_cmp_spec(&b) != Some(Ordering::Less) && b.partial_cmp_spec(&c) != Some(
            Ordering::Less,
        ) ==> a.partial_cmp_spec(&c) != Some(Ordering::Less)
}

/// Two values tie exactly when they are equal.
#[verifier::opaque]
pub open spec fn ties_are_equal<T: PartialOrd>() -> bool {
    forall|a: T, b: T|
        #![trigger a.partial_cmp_spec(&b)]
        a.partial_cmp_spec(&b) == Some(Ordering::Equal) <==> a == b
}

/// The operators of `T` compute a strict weak order: what sorting, merging and
/// a heap need.
pub open spec fn weak_order<T: PartialOrd>() -> bool {
    comparable::<T>() && weak_order_laws::<T>()
}

/// The operators of `T` compute a total order, in which only equal values tie:
/// what a set of values in a search tree needs.
pub open spec fn total_order<T: PartialOrd>() -> bool {
    weak_order::<T>() && ties_are_equal::<T>()
}

/// Among the first `hi` entries of `s`, each is at most every later one.
pub open spec fn ascending_below<T: PartialOrd>(s: Seq<T>, hi: int) -> bool {
    forall|i: int, j: int| 0 <= i < j < hi ==> at_most(#[trigger] s[i], #[trigger] s[j])
}

/// `s` is in non-decreasing order: each entry is at most every later one.
pub open spec fn ascending<T: PartialOrd>(s: Seq<T>) -> bool {
    ascending_below(s, s.len() as int)
}

/// A type that meets vstd's laws of comparison, and whose `==` is equality of
/// values, is a total order. vstd proves both of every primitive integer type.
pub proof fn lemma_total_order_of_lawful<T: Ord>()
    requires
        vstd::laws_cmp::obeys_cmp::<T>(),
        vstd::laws_eq::obeys_concrete_eq::<T>(),
    ensures
        total_order::<T>(),
{
    reveal(vstd::laws_cmp::obeys_cmp_partial_ord);
    reveal(vstd::laws_cmp::obeys_cmp_ord);
    reveal(vstd::laws_cmp::obeys_partial_cmp_spec_properties);
    reveal(vstd::laws_eq::obeys_concrete_eq);
    reveal(ties_are_equal);
    assert forall|a: T, b: T, c: T|
        #![trigger a.partial_cmp_spec(&b), b.partial_cmp_spec(&c)]
        a.partial_cmp_spec(&b) != Some(Ordering::Less) && b.partial_cmp_spec(&c) != Some(
            Ordering::Less,
        ) implies a.partial_cmp_spec(&c) != Some(Ordering::Less) by {
        if a.partial_cmp_spec(&c) == Some(Ordering::Less) {
            match a.partial_cmp_spec(&b) {
                Some(Ordering::Equal) => {
                    assert(a == b);
                },
                Some(Ordering::Greater) => {
                    assert(b.partial_cmp_spec(&a) == Some(Ordering::Less));
                    assert(b.partial_cmp_spec(&c) == Some(Ordering::Less));
                },
                _ => {
                    assert(a.partial_cmp_spec(&b) is Some);
                },
            }
        }
    }
    reveal(weak_order_laws);
}

/// Of two values exactly one holds: the first precedes, they tie, or the second
/// precedes.
pub proof fn lemma_comparison<T: PartialOrd>(a: T, b: T)
    requires
        weak_order::<T>(),
    ensures
        precedes(a, b) || ties(a, b) || precedes(b, a),
        !(precedes(a, b) && ties(a, b)),
        !(precedes(a, b) && precedes(b, a)),
        !(ties(a, b) && precedes(b, a)),
        ties(a, b) == ties(b, a),
        follows(a, b) == precedes(b, a),
        at_most(a, b) == !precedes(b, a),
{
    reveal(weak_order_laws);
    match (a.partial_cmp_spec(&b), b.partial_cmp_spec(&a)) {
        (Some(Ordering::Less), Some(Ordering::Greater)) => {},
        (Some(Ordering::Greater), Some(Ordering::Less)) => {},
        (Some(Ordering::Equal), Some(Ordering::Equal)) => {},
        _ => {
            assert(a.partial_cmp_spec(&b) is Some);
            assert(b.partial_cmp_spec(&a) is Some);
            assert(false);
        },
    }
}

/// In a total order, of two values exactly one holds: the first precedes, they
/// are equal, or the second precedes.
pub proof fn lemma_trichotomy<T: PartialOrd>(a: T, b: T)
    requires
        total_order::<T>(),
    ensures
        precedes(a, b) || a == b || precedes(b, a),
        !(precedes(a, b) && a == b),
        !(precedes(a, b) && precedes(b, a)),
        !(a == b && precedes(b, a)),
        follows(a, b) == precedes(b, a),
        at_most(a, b) == !precedes(b, a),
{
    reveal(ties_are_equal);
    lemma_comparison(a, b);
    assert(a.partial_cmp_spec(&b) == Some(Ordering::Equal) <==> a == b);
}

/// `precedes` is transitive.
pub proof fn lemma_precedes_transitive<T: PartialOrd>(a: T, b: T, c: T)
    requires
        weak_order::<T>(),
        precedes(a, b),
        precedes(b, c),
    ensures
        precedes(a, c),
{
    reveal(weak_order_laws);
}

/// What does not precede cannot be passed by what precedes: if `a` does not
/// precede `b`, and `b` does not precede `c`, then `a` does not precede `c`.
pub proof fn lemma_not_precedes_transitive<T: PartialOrd>(a: T, b: T, c: T)
    requires
        weak_order::<T>(),
        !precedes(a, b),
        !precedes(b, c),
    ensures
        !precedes(a, c),
{
    reveal(weak_order_laws);
}

/// `at_most` is transitive.
pub proof fn lemma_at_most_transitive<T: PartialOrd>(a: T, b: T, c: T)
    requires
        weak_order::<T>(),
        at_most(a, b),
        at_most(b, c),
    ensures
        at_most(a, c),
{
    lemma_comparison(a, b);
    lemma_comparison(b, c);
    lemma_comparison(a, c);
    lemma_not_precedes_transitive(c, b, a);
}

} // verus!
