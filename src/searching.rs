//! Searching a slice: a linear scan and a binary search.
use crate::order::{equiv, leq, sorted, lemma_total, lemma_leq_trans, lemma_obeys};
use vstd::laws_cmp::*;
use vstd::prelude::*;
use vstd::std_specs::cmp::{OrdSpec, PartialEqSpec, PartialOrdSpec};

verus! {

/// Returns the position of the first element equal to `target`, or `None`
/// when no element is.
pub fn linear_search<T: PartialEq>(arr: &[T], target: &T) -> (r: Option<usize>)
    requires
        T::obeys_eq_spec(),
    ensures
        match r {
            Some(i) => i < arr@.len() && equiv(arr@[i as int], *target) && forall|k: int|
                0 <= k < i ==> !equiv(#[trigger] arr@[k], *target),
            None => forall|k: int| 0 <= k < arr@.len() ==> !equiv(#[trigger] arr@[k], *target),
        },
{
    let mut index: usize = 0;
    while index < arr.len()
        invariant
            index <= arr@.len(),
            T::obeys_eq_spec(),
            forall|k: int| 0 <= k < index ==> !equiv(#[trigger] arr@[k], *target),
        decreases arr@.len() - index,
    {
        if arr[index] == *target {
            return Some(index);
        }
        index = index + 1;
    }
    None
}

/// Searches a slice sorted in ascending order for an element equal to
/// `target` and returns the position of one, or `None` when there is none.
///
/// The window of candidates is the closed range `[low, high]`, kept here as
/// the half-open `low..end` so that an empty slice, or a probe at position
/// zero, needs no subtraction that could underflow.
pub fn binary_search<T: Ord>(arr: &[T], target: &T) -> (r: Option<usize>)
    requires
        obeys_cmp::<T>(),
        sorted(arr@),
    ensures
        match r {
            Some(i) => i < arr@.len() && equiv(arr@[i as int], *target),
            None => forall|k: int| 0 <= k < arr@.len() ==> !equiv(#[trigger] arr@[k], *target),
        },
{
    proof {
        lemma_obeys::<T>();
    }
    let mut low: usize = 0;
    let mut end: usize = arr.len();
    while low < end
        invariant
            low <= end <= arr@.len(),
            sorted(arr@),
            obeys_cmp::<T>(),
            T::obeys_eq_spec(),
            T::obeys_partial_cmp_spec(),
            forall|k: int|
                (0 <= k < low || end <= k < arr@.len()) ==> !equiv(#[trigger] arr@[k], *target),
        decreases end - low,
    {
        let mid: usize = low + (end - 1 - low) / 2;
        if arr[mid] == *target {
            return Some(mid);
        }
        if arr[mid] < *target {
            proof {
                assert forall|k: int| 0 <= k <= mid implies !equiv(#[trigger] arr@[k], *target) by {
                    lemma_total(arr@[mid as int], *target);
                    if k < mid {
                        lemma_leq_trans(arr@[k], arr@[mid as int], *target);
                    }
                    lemma_total(arr@[k], *target);
                }
            }
            low = mid + 1;
        } else {
            proof {
                assert forall|k: int| mid <= k < arr@.len() implies !equiv(
                    #[trigger] arr@[k],
                    *target,
                ) by {
                    lemma_total(arr@[mid as int], *target);
                    lemma_total(*target, arr@[mid as int]);
                    if k > mid {
                        lemma_leq_trans(*target, arr@[mid as int], arr@[k]);
                    }
                    lemma_total(*target, arr@[k]);
                    lemma_total(arr@[k], *target);
                }
            }
            end = mid;
        }
    }
    None
}

} // verus!
