//! The ordering that every routine of the library relies on: the element
//! type's own `PartialEq` / `PartialOrd` / `Ord`, assumed to be a total order
//! in the sense of vstd's `obeys_cmp`.
use vstd::laws_cmp::*;
use vstd::laws_eq::*;
use vstd::prelude::*;
use vstd::std_specs::cmp::{OrdSpec, PartialEqSpec, PartialOrdSpec};
use core::cmp::Ordering;

verus! {

/// `a` is equal to `b` under the element type's `==`.
pub open spec fn equiv<T: PartialEq>(a: T, b: T) -> bool {
    a.eq_spec(&b)
}

/// `a` compares strictly less than `b`.
pub open spec fn less<T: PartialOrd>(a: T, b: T) -> bool {
    a.partial_cmp_spec(&b) == Some(Ordering::Less)
}

/// `a` compares less than or equal to `b`.
pub open spec fn leq<T: PartialOrd>(a: T, b: T) -> bool {
    a.partial_cmp_spec(&b) matches Some(Ordering::Less | Ordering::Equal)
}

/// Every element is `<=` every later one.
pub open spec fn sorted<T: PartialOrd>(s: Seq<T>) -> bool {
    forall|i: int, j: int| 0 <= i < j < s.len() ==> leq(#[trigger] s[i], #[trigger] s[j])
}

/// Comparison is total: either `a <= b` or `b < a`, never both.
pub proof fn lemma_total<T: Ord>(a: T, b: T)
    requires
        obeys_cmp::<T>(),
    ensures
        leq(a, b) || less(b, a),
        !(leq(a, b) && less(b, a)),
        leq(a, b) || leq(b, a),
        leq(a, a),
        equiv(a, a),
        less(a, b) ==> !equiv(a, b),
        leq(a, b) && leq(b, a) ==> equiv(a, b),
        equiv(a, b) <==> a.partial_cmp_spec(&b) == Some(Ordering::Equal),
        equiv(a, b) ==> equiv(b, a),
        leq(a, b) <==> !less(b, a),
        leq(a, b) <==> a.partial_cmp_spec(&b) != Some(Ordering::Greater),
        less(b, a) <==> a.partial_cmp_spec(&b) == Some(Ordering::Greater),
{
    reveal(obeys_partial_cmp_spec_properties);
    reveal(obeys_cmp_partial_ord);
    reveal(obeys_cmp_ord);
    reveal(obeys_eq_spec_properties);
    assert(a.partial_cmp_spec(&b) == Some(a.cmp_spec(&b)));
    assert(b.partial_cmp_spec(&a) == Some(b.cmp_spec(&a)));
    assert(a.partial_cmp_spec(&a) == Some(a.cmp_spec(&a)));
    assert(a.eq_spec(&a)) by {
        if !a.eq_spec(&a) {
            // a == a would compare Equal otherwise; Less or Greater against itself
            // contradicts the reversal law
            assert(a.partial_cmp_spec(&a) == Some(Ordering::Less) ==> a.partial_cmp_spec(&a)
                == Some(Ordering::Greater));
        }
    }
}

/// A type that obeys `obeys_cmp` has `==` and `partial_cmp` that follow
/// their spec functions.
pub proof fn lemma_obeys<T: Ord>()
    requires
        obeys_cmp::<T>(),
    ensures
        T::obeys_eq_spec(),
        T::obeys_partial_cmp_spec(),
        T::obeys_cmp_spec(),
{
    reveal(obeys_cmp_partial_ord);
    reveal(obeys_cmp_ord);
}

/// `==` is an equivalence: symmetric and transitive.
pub proof fn lemma_equiv_trans<T: Ord>(a: T, b: T, c: T)
    requires
        obeys_cmp::<T>(),
    ensures
        equiv(a, b) ==> equiv(b, a),
        equiv(a, b) && equiv(b, c) ==> equiv(a, c),
{
    reveal(obeys_eq_spec_properties);
}

/// `<=` is transitive.
pub proof fn lemma_leq_trans<T: Ord>(a: T, b: T, c: T)
    requires
        obeys_cmp::<T>(),
        leq(a, b),
        leq(b, c),
    ensures
        leq(a, c),
        less(a, b) || less(b, c) ==> less(a, c),
{
    reveal(obeys_partial_cmp_spec_properties);
    reveal(obeys_cmp_partial_ord);
    reveal(obeys_cmp_ord);
    reveal(obeys_eq_spec_properties);
    lemma_total(a, b);
    lemma_total(b, c);
    lemma_total(a, c);
    assert(a.partial_cmp_spec(&c) == Some(a.cmp_spec(&c)));
    assert(c.partial_cmp_spec(&a) == Some(c.cmp_spec(&a)));
    assert(b.partial_cmp_spec(&a) == Some(b.cmp_spec(&a)));
    assert(c.partial_cmp_spec(&b) == Some(c.cmp_spec(&b)));
}

} // verus!
