//! Six whole-slice sorting routines: merge, heap, quick, insertion,
//! selection and bubble sort. Each one leaves the slice in ascending order
//! and holding the same elements as before.
use crate::order::{equiv, leq, less, sorted, lemma_equiv_trans, lemma_total, lemma_leq_trans, lemma_obeys};
use vstd::laws_cmp::*;
use vstd::multiset::Multiset;
use vstd::prelude::*;
use vstd::std_specs::cmp::{OrdSpec, PartialEqSpec, PartialOrdSpec};

verus! {

/// Relies on std's `slice::swap`: it exchanges the two elements and panics
/// when either index is out of bounds.
pub assume_specification<E>[ <[E]>::swap ](s: &mut [E], a: usize, b: usize)
    requires
        a < old(s)@.len(),
        b < old(s)@.len(),
    ensures
        final(s)@ == old(s)@.update(a as int, old(s)@[b as int]).update(b as int, old(s)@[a as int]),
;

/// `after` is `before` rearranged into ascending order.
pub open spec fn sorts_to<T: PartialOrd>(before: Seq<T>, after: Seq<T>) -> bool {
    &&& sorted(after)
    &&& after.to_multiset() == before.to_multiset()
}

/// The elements of `s` that are equal to `x`, in their order in `s`.
pub open spec fn class_of<T: PartialEq>(s: Seq<T>, x: T) -> Seq<T> {
    s.filter(|y: T| equiv(y, x))
}

/// `after` is `before` rearranged into ascending order, and elements that
/// are equal to each other come in the order they had in `before`.
pub open spec fn stably_sorts_to<T: PartialOrd>(before: Seq<T>, after: Seq<T>) -> bool {
    &&& sorts_to(before, after)
    &&& forall|x: T| #[trigger] class_of(after, x) == class_of(before, x)
}

/// How many of the first `m` elements of `s` satisfy `pred`.
pub open spec fn count_upto<T>(s: Seq<T>, pred: spec_fn(T) -> bool, m: int) -> int {
    s.take(m).filter(pred).len() as int
}

/// One more element counts once more exactly when it satisfies `pred`.
proof fn lemma_count_step<T>(s: Seq<T>, pred: spec_fn(T) -> bool, m: int)
    requires
        0 <= m < s.len(),
    ensures
        count_upto(s, pred, m + 1) == count_upto(s, pred, m) + if pred(s[m]) { 1int } else { 0 },
{
    assert(s.take(m + 1) =~= s.take(m).push(s[m]));
    s.take(m).lemma_filter_push(s[m], pred);
}

/// The count grows with `m`, and strictly past an element that satisfies
/// `pred`.
proof fn lemma_count_grows<T>(s: Seq<T>, pred: spec_fn(T) -> bool, a: int, b: int)
    requires
        0 <= a <= b <= s.len(),
    ensures
        count_upto(s, pred, a) <= count_upto(s, pred, b),
        a < b && pred(s[a]) ==> count_upto(s, pred, a) < count_upto(s, pred, b),
    decreases b - a,
{
    if a < b {
        lemma_count_grows(s, pred, a + 1, b);
        lemma_count_step(s, pred, a);
    }
}

/// An element that satisfies `pred` sits in `s.filter(pred)` at the place
/// given by how many before it satisfy `pred`.
proof fn lemma_filter_place<T>(s: Seq<T>, pred: spec_fn(T) -> bool, m: int)
    requires
        0 <= m < s.len(),
        pred(s[m]),
    ensures
        count_upto(s, pred, m) < s.filter(pred).len(),
        s.filter(pred)[count_upto(s, pred, m)] == s[m],
{
    let head = s.take(m);
    let rest = s.skip(m + 1);
    assert(s =~= head + (seq![s[m]] + rest));
    Seq::filter_distributes_over_add(head, seq![s[m]] + rest, pred);
    rest.lemma_filter_prepend(s[m], pred);
}

/// Every place of `s.filter(pred)` is taken by some element of `s` at or
/// after `m`, given that fewer than that many before `m` satisfy `pred`.
proof fn lemma_filter_source<T>(s: Seq<T>, pred: spec_fn(T) -> bool, r: int, m: int)
    requires
        0 <= m <= s.len(),
        count_upto(s, pred, m) <= r < s.filter(pred).len(),
    ensures
        exists|q: int| m <= q < s.len() && pred(s[q]) && count_upto(s, pred, q) == r,
    decreases s.len() - m,
{
    if m == s.len() {
        assert(s.take(m) =~= s);
    } else {
        lemma_count_step(s, pred, m);
        if !(pred(s[m]) && count_upto(s, pred, m) == r) {
            lemma_filter_source(s, pred, r, m + 1);
        }
    }
}

/// `f` matches each position of `after` to a position of `before` holding
/// the same element, no two to the same one, and equal elements of `after`
/// to positions in the same order.
pub open spec fn stable_matching<T: PartialEq>(before: Seq<T>, after: Seq<T>, f: spec_fn(int) -> int) -> bool {
    &&& forall|k: int|
        0 <= k < after.len() ==> 0 <= #[trigger] f(k) < before.len() && after[k] == before[f(k)]
    &&& forall|k1: int, k2: int| 0 <= k1 < k2 < after.len() ==> #[trigger] f(k1) != #[trigger] f(k2)
    &&& forall|k1: int, k2: int|
        0 <= k1 < k2 < after.len() && equiv(after[k1], after[k2]) ==> #[trigger] f(k1)
            < #[trigger] f(k2)
}

/// Keeping, for every value, the order of the elements equal to it is
/// stability in its usual sense: each position of `after` can be matched to
/// a position of `before` that holds the same element, no two positions to
/// the same one (so the matching is one-to-one and onto), such that equal
/// elements of `after` come from positions of `before` in the same order.
/// It holds of `merge_sort` and `insertion_sort`.
pub proof fn lemma_stable_matching<T: Ord>(before: Seq<T>, after: Seq<T>)
    requires
        obeys_cmp::<T>(),
        stably_sorts_to(before, after),
    ensures
        exists|f: spec_fn(int) -> int| #[trigger] stable_matching(before, after, f),
{
    vstd::seq_lib::to_multiset_len(before);
    vstd::seq_lib::to_multiset_len(after);
    let n = after.len() as int;
    let pick = |k: int| choose|m: int|
        0 <= m < before.len() && equiv(before[m], after[k]) && count_upto(
            before,
            |y: T| equiv(y, after[k]),
            m,
        ) == count_upto(after, |y: T| equiv(y, after[k]), k);
    assert forall|k: int| 0 <= k < n implies 0 <= #[trigger] pick(k) < before.len() && equiv(
        before[pick(k)],
        after[k],
    ) && count_upto(before, |y: T| equiv(y, after[k]), pick(k)) == count_upto(
        after,
        |y: T| equiv(y, after[k]),
        k,
    ) && after[k] == before[pick(k)] by {
        let x = after[k];
        let pred = |y: T| equiv(y, x);
        lemma_total(x, x);
        lemma_filter_place(after, pred, k);
        assert(class_of(after, x) == class_of(before, x));
        let r = count_upto(after, pred, k);
        assert(before.take(0) =~= Seq::<T>::empty());
        assert(Seq::<T>::empty().filter(pred) =~= Seq::<T>::empty()) by {
            reveal(Seq::filter);
        }
        lemma_filter_source(before, pred, r, 0);
        let m = pick(k);
        lemma_filter_place(before, pred, m);
    }
    assert forall|k1: int, k2: int| 0 <= k1 < k2 < n implies #[trigger] pick(k1) != #[trigger] pick(
        k2,
    ) && (equiv(after[k1], after[k2]) ==> pick(k1) < pick(k2)) by {
        let x1 = after[k1];
        let x2 = after[k2];
        let m1 = pick(k1);
        let m2 = pick(k2);
        lemma_equiv_trans(before[m1], x1, x2);
        lemma_equiv_trans(x1, before[m1], x2);
        lemma_equiv_trans(before[m1], x2, x1);
        lemma_equiv_trans(x2, before[m1], x1);
        if equiv(x1, x2) {
            let p1 = |y: T| equiv(y, x1);
            let p2 = |y: T| equiv(y, x2);
            assert forall|y: T| #[trigger] p1(y) == p2(y) by {
                lemma_equiv_trans(y, x1, x2);
                lemma_equiv_trans(y, x2, x1);
                lemma_equiv_trans(x1, x2, x2);
                lemma_equiv_trans(x2, x1, x1);
            }
            assert(p1 =~= p2);
            lemma_total(x1, x1);
            lemma_count_grows(after, p1, k1, k2);
            if m2 < m1 {
                lemma_count_grows(before, p1, m2, m1);
            }
        } else {
            if m1 == m2 {
                lemma_total(x1, x2);
            }
        }
    }    assert(stable_matching(before, after, pick));
}

/// Exchanging two neighbours that are not equal to each other keeps the
/// order among equal elements.
proof fn lemma_swap_unequal_neighbours<T: Ord>(s: Seq<T>, a: int)
    requires
        obeys_cmp::<T>(),
        0 <= a,
        a + 1 < s.len(),
        !equiv(s[a], s[a + 1]),
    ensures
        forall|x: T|
            #[trigger] class_of(s.update(a, s[a + 1]).update(a + 1, s[a]), x) == class_of(s, x),
{
    let t = s.update(a, s[a + 1]).update(a + 1, s[a]);
    let u = s[a];
    let v = s[a + 1];
    let p = s.subrange(0, a);
    let q = s.subrange(a + 2, s.len() as int);
    assert(s =~= p + seq![u, v] + q);
    assert(t =~= p + seq![v, u] + q);
    assert(seq![u, v] =~= Seq::<T>::empty().push(u).push(v));
    assert(seq![v, u] =~= Seq::<T>::empty().push(v).push(u));
    assert forall|x: T| #[trigger] class_of(t, x) == class_of(s, x) by {
        let pred = |y: T| equiv(y, x);
        Seq::filter_distributes_over_add(p + seq![u, v], q, pred);
        Seq::filter_distributes_over_add(p, seq![u, v], pred);
        Seq::filter_distributes_over_add(p + seq![v, u], q, pred);
        Seq::filter_distributes_over_add(p, seq![v, u], pred);
        Seq::<T>::empty().lemma_filter_push(u, pred);
        Seq::<T>::empty().push(u).lemma_filter_push(v, pred);
        Seq::<T>::empty().lemma_filter_push(v, pred);
        Seq::<T>::empty().push(v).lemma_filter_push(u, pred);
        lemma_equiv_trans(u, x, v);
        lemma_equiv_trans(v, x, u);
        lemma_equiv_trans(x, v, u);
        lemma_equiv_trans(u, v, x);
        assert(Seq::<T>::empty().filter(pred) =~= Seq::<T>::empty()) by {
            reveal(Seq::filter);
        }
        assert(seq![u, v].filter(pred) =~= seq![v, u].filter(pred));
    }
}

/// Where `==` on `T` is identity, a sorted sequence is the only ascending
/// rearrangement of its elements: sorting an already sorted sequence, with
/// any of the sorts here, gives it back unchanged.
pub proof fn lemma_sorting_sorted_is_identity<T: Ord>(before: Seq<T>, after: Seq<T>)
    requires
        obeys_cmp::<T>(),
        forall|a: T, b: T| equiv(a, b) <==> a == b,
        sorted(before),
        sorts_to(before, after),
    ensures
        after == before,
    decreases before.len(),
{
    broadcast use vstd::seq_lib::group_to_multiset_ensures;
    broadcast use vstd::multiset::group_multiset_axioms;

    vstd::seq_lib::to_multiset_len(before);
    vstd::seq_lib::to_multiset_len(after);
    if before.len() > 0 {
        let x = before[0];
        let y = after[0];
        assert(after.to_multiset().count(y) > 0);
        assert(before.contains(y));
        let p = choose|p: int| 0 <= p < before.len() && before[p] == y;
        assert(before.to_multiset().count(x) > 0);
        assert(after.contains(x));
        let q = choose|q: int| 0 <= q < after.len() && after[q] == x;
        lemma_total(x, x);
        lemma_total(y, y);
        if p > 0 {
            assert(leq(before[0], before[p]));
        }
        if q > 0 {
            assert(leq(after[0], after[q]));
        }
        lemma_total(x, y);
        assert(x == y);
        let b = before.drop_first();
        let a = after.drop_first();
        assert(before =~= seq![x] + b);
        assert(after =~= seq![x] + a);
        vstd::seq_lib::lemma_multiset_commutative(seq![x], b);
        vstd::seq_lib::lemma_multiset_commutative(seq![x], a);
        assert(seq![x] =~= Seq::<T>::empty().push(x));
        assert(Seq::<T>::empty().to_multiset() =~= Multiset::empty());
        let m = seq![x].to_multiset();
        assert(m.add(a.to_multiset()) == m.add(b.to_multiset()));
        assert forall|v: T| a.to_multiset().count(v) == b.to_multiset().count(v) by {
            assert(m.add(a.to_multiset()).count(v) == m.add(b.to_multiset()).count(v));
        }
        assert(a.to_multiset() =~= b.to_multiset());
        assert forall|i: int, j: int| 0 <= i < j < b.len() implies leq(#[trigger] b[i], #[trigger] b[j]) by {
            assert(b[i] == before[i + 1] && b[j] == before[j + 1]);
        }
        assert forall|i: int, j: int| 0 <= i < j < a.len() implies leq(#[trigger] a[i], #[trigger] a[j]) by {
            assert(a[i] == after[i + 1] && a[j] == after[j + 1]);
        }
        lemma_sorting_sorted_is_identity(b, a);
    } else {
        assert(after =~= before);
    }
}

/// A sorted sequence is the only ascending rearrangement of its elements
/// that keeps equal elements in their order: sorting an already sorted
/// sequence with a stable sort gives it back unchanged, whatever `==` is.
pub proof fn lemma_stable_sorting_sorted_is_identity<T: Ord>(before: Seq<T>, after: Seq<T>)
    requires
        obeys_cmp::<T>(),
        sorted(before),
        stably_sorts_to(before, after),
    ensures
        after == before,
    decreases before.len(),
{
    broadcast use vstd::seq_lib::group_to_multiset_ensures;
    broadcast use vstd::multiset::group_multiset_axioms;

    vstd::seq_lib::to_multiset_len(before);
    vstd::seq_lib::to_multiset_len(after);
    if before.len() > 0 {
        let x = before[0];
        let y = after[0];
        assert(after.to_multiset().count(y) > 0);
        assert(before.contains(y));
        let p = choose|p: int| 0 <= p < before.len() && before[p] == y;
        assert(before.to_multiset().count(x) > 0);
        assert(after.contains(x));
        let q = choose|q: int| 0 <= q < after.len() && after[q] == x;
        lemma_total(x, x);
        lemma_total(y, y);
        if p > 0 {
            assert(leq(before[0], before[p]));
        }
        if q > 0 {
            assert(leq(after[0], after[q]));
        }
        lemma_total(x, y);
        lemma_total(y, x);
        let b = before.drop_first();
        let a = after.drop_first();
        assert(before =~= seq![x] + b);
        assert(after =~= seq![y] + a);
        b.lemma_filter_prepend(x, |w: T| equiv(w, x));
        a.lemma_filter_prepend(y, |w: T| equiv(w, x));
        assert(class_of(before, x) == class_of(after, x));
        assert(class_of(before, x)[0] == x);
        assert(class_of(after, x)[0] == y);
        assert(x == y);
        assert forall|z: T| #[trigger] class_of(a, z) == class_of(b, z) by {
            b.lemma_filter_prepend(x, |w: T| equiv(w, z));
            a.lemma_filter_prepend(x, |w: T| equiv(w, z));
            assert(class_of(before, z) == class_of(after, z));
            let head = if equiv(x, z) { seq![x] } else { Seq::<T>::empty() };
            assert(class_of(a, z) =~= (head + class_of(a, z)).subrange(head.len() as int, (head + class_of(a, z)).len() as int));
            assert(class_of(b, z) =~= (head + class_of(b, z)).subrange(head.len() as int, (head + class_of(b, z)).len() as int));
        }
        vstd::seq_lib::lemma_multiset_commutative(seq![x], b);
        vstd::seq_lib::lemma_multiset_commutative(seq![x], a);
        let m = seq![x].to_multiset();
        assert(m.add(a.to_multiset()) == m.add(b.to_multiset()));
        assert forall|v: T| a.to_multiset().count(v) == b.to_multiset().count(v) by {
            assert(m.add(a.to_multiset()).count(v) == m.add(b.to_multiset()).count(v));
        }
        assert(a.to_multiset() =~= b.to_multiset());
        assert forall|i: int, j: int| 0 <= i < j < b.len() implies leq(#[trigger] b[i], #[trigger] b[j]) by {
            assert(b[i] == before[i + 1] && b[j] == before[j + 1]);
        }
        assert forall|i: int, j: int| 0 <= i < j < a.len() implies leq(#[trigger] a[i], #[trigger] a[j]) by {
            assert(a[i] == after[i + 1] && a[j] == after[j + 1]);
        }
        lemma_stable_sorting_sorted_is_identity(b, a);
    } else {
        assert(after =~= before);
    }
}

/// Exchanging two elements keeps the multiset of elements.
proof fn lemma_swap_keeps_multiset<T>(s: Seq<T>, a: int, b: int)
    requires
        0 <= a < s.len(),
        0 <= b < s.len(),
    ensures
        s.update(a, s[b]).update(b, s[a]).to_multiset() == s.to_multiset(),
{
    broadcast use vstd::seq_lib::group_to_multiset_ensures;
    broadcast use vstd::multiset::group_multiset_axioms;

    let t = s.update(a, s[b]);
    assert(t.to_multiset() =~= s.to_multiset().insert(s[b]).remove(s[a]));
    assert(t.update(b, s[a]).to_multiset() =~= t.to_multiset().insert(s[a]).remove(t[b]));
    if a == b {
        assert(s.update(a, s[b]).update(b, s[a]) =~= s);
    } else {
        assert(t[b] == s[b]);
        assert(t.update(b, s[a]).to_multiset() =~= s.to_multiset());
    }
}

/// Sorts `arr` in ascending order by insertion: each element in turn is moved
/// left past every larger neighbour. Equal elements keep their order.
pub fn insertion_sort<T: Ord>(arr: &mut [T])
    requires
        obeys_cmp::<T>(),
    ensures
        stably_sorts_to(old(arr)@, final(arr)@),
        sorted(old(arr)@) ==> final(arr)@ == old(arr)@,
{
    proof {
        lemma_obeys::<T>();
    }
    let len: usize = arr.len();
    if len == 0 {
        return;
    }
    let mut i: usize = 1;
    while i < len
        invariant
            obeys_cmp::<T>(),
            T::obeys_partial_cmp_spec(),
            len == arr@.len(),
            1 <= i <= len,
            sorted(arr@.subrange(0, i as int)),
            arr@.to_multiset() == old(arr)@.to_multiset(),
            forall|x: T| #[trigger] class_of(arr@, x) == class_of(old(arr)@, x),
        decreases len - i,
    {
        let mut j: usize = i;
        proof {
            let s = arr@;
            assert forall|a: int, b: int| 0 <= a < b < i implies leq(
                #[trigger] s[a],
                #[trigger] s[b],
            ) by {
                assert(s[a] == s.subrange(0, i as int)[a]);
                assert(s[b] == s.subrange(0, i as int)[b]);
            }
        }
        while j > 0 && arr[j - 1] > arr[j]
            invariant
                obeys_cmp::<T>(),
                T::obeys_partial_cmp_spec(),
                len == arr@.len(),
                1 <= i < len,
                j <= i,
                forall|a: int, b: int|
                    0 <= a < b <= i && a != j && b != j ==> leq(
                        #[trigger] arr@[a],
                        #[trigger] arr@[b],
                    ),
                forall|b: int| j < b <= i ==> less(arr@[j as int], #[trigger] arr@[b]),
                arr@.to_multiset() == old(arr)@.to_multiset(),
                forall|x: T| #[trigger] class_of(arr@, x) == class_of(old(arr)@, x),
            decreases j,
        {
            proof {
                lemma_swap_keeps_multiset(arr@, j - 1, j as int);
                lemma_total(arr@[j - 1], arr@[j as int]);
                lemma_total(arr@[j as int], arr@[j - 1]);
                lemma_swap_unequal_neighbours(arr@, j - 1);
            }
            let ghost s = arr@;
            arr.swap(j - 1, j);
            assert(arr@ == s.update(j - 1, s[(j - 1) + 1]).update((j - 1) + 1, s[j - 1]));
            j = j - 1;
        }
        proof {
            let s = arr@;
            if j > 0 {
                lemma_total(s[j - 1], s[j as int]);
            }
            assert forall|a: int, b: int| 0 <= a < b < i + 1 implies leq(
                #[trigger] s.subrange(0, i + 1)[a],
                #[trigger] s.subrange(0, i + 1)[b],
            ) by {
                if b == j {
                    if a < j - 1 {
                        lemma_leq_trans(s[a], s[j - 1], s[j as int]);
                    }
                } else if a == j {
                    lemma_total(s[a], s[b]);
                }
                assert(s.subrange(0, i + 1)[a] == s[a]);
                assert(s.subrange(0, i + 1)[b] == s[b]);
            }
        }
        i = i + 1;
    }
    assert(arr@.subrange(0, len as int) =~= arr@);
    proof {
        if sorted(old(arr)@) {
            lemma_stable_sorting_sorted_is_identity(old(arr)@, arr@);
        }
    }
}

/// Sorts `arr` in ascending order by selection: each position in turn takes
/// the leftmost least element of the part not yet placed.
pub fn selection_sort<T: Ord>(arr: &mut [T])
    requires
        obeys_cmp::<T>(),
    ensures
        sorts_to(old(arr)@, final(arr)@),
        sorted(old(arr)@) ==> final(arr)@ == old(arr)@,
{
    proof {
        lemma_obeys::<T>();
    }
    let len: usize = arr.len();
    let mut i: usize = 0;
    while i < len
        invariant
            obeys_cmp::<T>(),
            T::obeys_partial_cmp_spec(),
            len == arr@.len(),
            i <= len,
            forall|a: int, b: int|
                0 <= a < b < len && a < i ==> leq(#[trigger] arr@[a], #[trigger] arr@[b]),
            arr@.to_multiset() == old(arr)@.to_multiset(),
            sorted(old(arr)@) ==> arr@ == old(arr)@,
        decreases len - i,
    {
        let mut min_index: usize = i;
        let mut j: usize = i + 1;
        proof {
            lemma_total(arr@[i as int], arr@[i as int]);
        }
        while j < len
            invariant
                obeys_cmp::<T>(),
                T::obeys_partial_cmp_spec(),
                len == arr@.len(),
                i < len,
                i <= min_index < j <= len,
                forall|k: int| i <= k < j ==> leq(arr@[min_index as int], #[trigger] arr@[k]),
                sorted(arr@) ==> min_index == i,
            decreases len - j,
        {
            if arr[j] < arr[min_index] {
                proof {
                    lemma_total(arr@[min_index as int], arr@[j as int]);
                    assert forall|k: int| i <= k < j implies leq(
                        arr@[j as int],
                        #[trigger] arr@[k],
                    ) by {
                        lemma_total(arr@[j as int], arr@[min_index as int]);
                        lemma_leq_trans(arr@[j as int], arr@[min_index as int], arr@[k]);
                    }
                    lemma_total(arr@[j as int], arr@[j as int]);
                }
                min_index = j;
            } else {
                proof {
                    lemma_total(arr@[min_index as int], arr@[j as int]);
                }
            }
            j = j + 1;
        }
        proof {
            let s = arr@;
            lemma_swap_keeps_multiset(s, i as int, min_index as int);
            let t = s.update(i as int, s[min_index as int]).update(min_index as int, s[i as int]);
            assert forall|a: int, b: int| 0 <= a < b < len && a < i + 1 implies leq(
                #[trigger] t[a],
                #[trigger] t[b],
            ) by {
                if a < i {
                    if b == min_index {
                        assert(leq(s[a], s[i as int]));
                    } else if b == i {
                        assert(leq(s[a], s[min_index as int]));
                    } else {
                        assert(leq(s[a], s[b]));
                    }
                } else {
                    if b == min_index {
                        assert(leq(s[min_index as int], s[i as int]));
                    } else {
                        assert(leq(s[min_index as int], s[b]));
                    }
                }
            }
        }
        if min_index != i {
            arr.swap(i, min_index);
        }
        proof {
            if min_index == i {
                assert(arr@.update(i as int, arr@[min_index as int]).update(min_index as int, arr@[i as int]) =~= arr@);
            }
        }
        i = i + 1;
    }
}

/// Sorts `arr` in ascending order by bubbling: each pass walks the part not
/// yet placed and exchanges neighbours that are out of order, which carries
/// its greatest element to the end of that part.
pub fn bubble_sort<T: Ord>(arr: &mut [T])
    requires
        obeys_cmp::<T>(),
    ensures
        sorts_to(old(arr)@, final(arr)@),
        sorted(old(arr)@) ==> final(arr)@ == old(arr)@,
{
    proof {
        lemma_obeys::<T>();
    }
    let len: usize = arr.len();
    let mut i: usize = 0;
    while i < len
        invariant
            obeys_cmp::<T>(),
            T::obeys_partial_cmp_spec(),
            len == arr@.len(),
            i <= len,
            forall|a: int, b: int|
                0 <= a < b < len && b >= len - i ==> leq(#[trigger] arr@[a], #[trigger] arr@[b]),
            arr@.to_multiset() == old(arr)@.to_multiset(),
            sorted(old(arr)@) ==> arr@ == old(arr)@,
        decreases len - i,
    {
        let mut j: usize = 0;
        while j < len - 1 - i
            invariant
                obeys_cmp::<T>(),
                T::obeys_partial_cmp_spec(),
                len == arr@.len(),
                i < len,
                j <= len - 1 - i,
                forall|a: int, b: int|
                    0 <= a < b < len && b >= len - i ==> leq(#[trigger] arr@[a], #[trigger] arr@[b]),
                forall|k: int| 0 <= k < j ==> leq(#[trigger] arr@[k], arr@[j as int]),
                arr@.to_multiset() == old(arr)@.to_multiset(),
                sorted(old(arr)@) ==> arr@ == old(arr)@,
            decreases len - 1 - i - j,
        {
            proof {
                lemma_total(arr@[j as int], arr@[j + 1]);
                if sorted(old(arr)@) {
                    assert(leq(arr@[j as int], arr@[j + 1]));
                }
            }
            if arr[j] > arr[j + 1] {
                proof {
                    let s = arr@;
                    lemma_swap_keeps_multiset(s, j as int, j + 1);
                    assert forall|k: int| 0 <= k < j + 1 implies leq(
                        #[trigger] s.update(j as int, s[j + 1]).update(j + 1, s[j as int])[k],
                        s[j as int],
                    ) by {
                        if k < j {
                            lemma_total(s[j + 1], s[j as int]);
                        } else {
                            lemma_total(s[j + 1], s[j as int]);
                        }
                    }
                }
                arr.swap(j, j + 1);
            } else {
                proof {
                    let s = arr@;
                    assert forall|k: int| 0 <= k < j + 1 implies leq(#[trigger] s[k], s[j + 1]) by {
                        if k < j {
                            lemma_leq_trans(s[k], s[j as int], s[j + 1]);
                        }
                    }
                }
            }
            j = j + 1;
        }
        proof {
            let s = arr@;
            assert forall|a: int, b: int| 0 <= a < b < len && b >= len - (i + 1) implies leq(
                #[trigger] s[a],
                #[trigger] s[b],
            ) by {
                if b == len - 1 - i {
                    lemma_total(s[a], s[a]);
                }
            }
        }
        i = i + 1;
    }
    proof {
        assert forall|a: int, b: int| 0 <= a < b < arr@.len() implies leq(
            #[trigger] arr@[a],
            #[trigger] arr@[b],
        ) by {
            assert(b >= len - i);
        }
    }
}

/// Within the first `n` elements, the element at `k` is `>=` each of its
/// children `2k + 1` and `2k + 2`.
pub open spec fn heap_at<T: PartialOrd>(s: Seq<T>, n: int, k: int) -> bool {
    &&& 2 * k + 1 < n ==> leq(s[2 * k + 1], s[k])
    &&& 2 * k + 2 < n ==> leq(s[2 * k + 2], s[k])
}

/// The first `n` elements form a max-heap at every node from `lo` on.
pub open spec fn heap_from<T: PartialOrd>(s: Seq<T>, n: int, lo: int) -> bool {
    forall|k: int| lo <= k < n ==> #[trigger] heap_at(s, n, k)
}

/// In a max-heap over the first `n` elements, the root is `>=` all of them.
proof fn lemma_heap_root_is_max<T: Ord>(s: Seq<T>, n: int, p: int)
    requires
        obeys_cmp::<T>(),
        n <= s.len(),
        heap_from(s, n, 0),
        0 <= p < n,
    ensures
        leq(s[p], s[0]),
    decreases p,
{
    if p == 0 {
        lemma_total(s[0], s[0]);
    } else {
        let parent = (p - 1) / 2;
        assert(heap_at(s, n, parent));
        lemma_heap_root_is_max(s, n, parent);
        lemma_leq_trans(s[p], s[parent], s[0]);
    }
}

/// `k` is `i` or lies below `i` in the tree where the children of `j` are
/// `2j + 1` and `2j + 2`.
pub open spec fn in_subtree(i: int, k: int) -> bool
    decreases k,
{
    if k <= i || k <= 0 {
        k == i
    } else {
        in_subtree(i, (k - 1) / 2)
    }
}

/// A node of a subtree lies at or after its root, and the parent of any node
/// but the root is in the subtree too.
proof fn lemma_subtree_parent(i: int, k: int)
    requires
        0 <= i,
        in_subtree(i, k),
    ensures
        k >= i,
        k != i ==> k > 0 && in_subtree(i, (k - 1) / 2),
    decreases k,
{
    if k > i && k > 0 {
        lemma_subtree_parent(i, (k - 1) / 2);
    }
}

/// Both children of a node of a subtree are in the subtree.
proof fn lemma_subtree_children(i: int, k: int)
    requires
        0 <= i,
        in_subtree(i, k),
    ensures
        in_subtree(i, 2 * k + 1),
        in_subtree(i, 2 * k + 2),
{
    lemma_subtree_parent(i, k);
    assert((2 * k + 1 - 1) / 2 == k);
    assert((2 * k + 2 - 1) / 2 == k);
}

/// The subtree of a child lies within the subtree of its parent.
proof fn lemma_subtree_of_child(i: int, c: int, k: int)
    requires
        0 <= i,
        c == 2 * i + 1 || c == 2 * i + 2,
        in_subtree(c, k),
    ensures
        in_subtree(i, k),
    decreases k,
{
    lemma_subtree_parent(c, k);
    if k != c {
        lemma_subtree_of_child(i, c, (k - 1) / 2);
        assert(in_subtree(i, k) == in_subtree(i, (k - 1) / 2));
    } else {
        assert((c - 1) / 2 == i);
        assert(in_subtree(i, i));
        assert(in_subtree(i, c) == in_subtree(i, (c - 1) / 2));
    }
}

/// Every node is in the subtree of the root.
proof fn lemma_subtree_root(k: int)
    requires
        0 <= k,
    ensures
        in_subtree(0, k),
    decreases k,
{
    if k > 0 {
        lemma_subtree_root((k - 1) / 2);
    }
}

/// Sifts the element at `i` down the max-heap formed by the first `n`
/// elements, until it is `>=` both of its children.
///
/// Every node of the subtree under `i` but `i` itself must already satisfy
/// the heap property. Afterwards every node of that subtree does; nothing
/// outside it has changed; each node of it below `i` now holds something
/// `<=` what it held; and `i` holds what it held or what one of its children
/// held.
fn heapify<T: Ord>(arr: &mut [T], n: usize, i: usize)
    requires
        obeys_cmp::<T>(),
        n <= old(arr)@.len(),
        i < n,
        forall|k: int|
            in_subtree(i as int, k) && k != i && k < n ==> #[trigger] heap_at(old(arr)@, n as int, k),
    ensures
        final(arr)@.len() == old(arr)@.len(),
        final(arr)@.to_multiset() == old(arr)@.to_multiset(),
        forall|k: int|
            in_subtree(i as int, k) && k < n ==> #[trigger] heap_at(final(arr)@, n as int, k),
        forall|p: int|
            0 <= p < old(arr)@.len() && !(in_subtree(i as int, p) && p < n)
                ==> #[trigger] final(arr)@[p] == old(arr)@[p],
        forall|p: int|
            in_subtree(i as int, p) && p != i && p < n ==> leq(
                #[trigger] final(arr)@[p],
                old(arr)@[p],
            ),
        final(arr)@[i as int] == old(arr)@[i as int] || (2 * i + 1 < n && final(arr)@[i as int]
            == old(arr)@[2 * i + 1]) || (2 * i + 2 < n && final(arr)@[i as int] == old(arr)@[2 * i
            + 2]),
    decreases n - i,
{
    proof {
        lemma_obeys::<T>();
    }
    let ghost s = arr@;
    let ghost left: int = 2 * i + 1;
    let ghost right: int = 2 * i + 2;
    let mut largest: usize = i;
    // `2 * i + 1 < n` exactly when `i < n / 2`, and `2 * i + 2 < n` exactly
    // when `i < (n - 1) / 2`; testing it so keeps the sums from overflowing
    if i < n / 2 {
        proof {
            lemma_total(s[left], s[i as int]);
            lemma_total(s[i as int], s[left]);
            lemma_total(s[i as int], s[i as int]);
        }
        if arr[2 * i + 1] > arr[largest] {
            largest = 2 * i + 1;
        }
        let ghost mid = largest as int;
        assert(leq(s[left], s[mid]) && leq(s[i as int], s[mid]));
        if i < (n - 1) / 2 {
            proof {
                lemma_total(s[right], s[mid]);
                lemma_total(s[mid], s[right]);
                if leq(s[mid], s[right]) {
                    lemma_leq_trans(s[left], s[mid], s[right]);
                    lemma_leq_trans(s[i as int], s[mid], s[right]);
                }
            }
            if arr[2 * i + 2] > arr[largest] {
                largest = 2 * i + 2;
            }
        }
    }
    proof {
        lemma_total(s[i as int], s[i as int]);
        if left < n {
            lemma_total(s[left as int], s[i as int]);
            lemma_total(s[i as int], s[left as int]);
            lemma_total(s[left as int], s[largest as int]);
            lemma_total(s[largest as int], s[left as int]);
        }
        if right < n {
            lemma_total(s[right as int], s[i as int]);
            lemma_total(s[right as int], s[largest as int]);
            lemma_total(s[largest as int], s[right as int]);
            if left < n {
                lemma_total(s[left as int], s[right as int]);
                lemma_total(s[right as int], s[left as int]);
            }
        }
        // the largest of the three is `>=` the other two
        assert(left < n ==> leq(s[left as int], s[largest as int]));
        assert(right < n ==> leq(s[right as int], s[largest as int]));
        assert(leq(s[i as int], s[largest as int]));
        assert(largest != i ==> less(s[i as int], s[largest as int]));
    }

    proof {
        lemma_subtree_parent(i as int, i as int);
        lemma_subtree_children(i as int, i as int);
    }
    if largest != i {
        let ghost c = largest as int;
        let ghost o = if c == left { right } else { left };
        proof {
            lemma_swap_keeps_multiset(s, i as int, largest as int);
            assert(heap_at(s, n as int, c));
        }
        arr.swap(i, largest);
        let ghost t = arr@;
        proof {
            assert forall|k: int| in_subtree(c, k) && k != c && k < n implies #[trigger] heap_at(
                t,
                n as int,
                k,
            ) by {
                lemma_subtree_of_child(i as int, c, k);
                lemma_subtree_parent(c, k);
                assert(heap_at(s, n as int, k));
            }
        }
        heapify(arr, n, largest);
        proof {
            let u = arr@;
            lemma_subtree_parent(c, c);
            // the new value at `largest` is `<=` what `i` now holds
            assert(leq(u[c], s[c])) by {
                if u[c] == t[c] {
                } else if 2 * c + 1 < n && u[c] == t[2 * c + 1] {
                } else {
                }
            }
            // the other child is outside the subtree of `largest`
            assert(!in_subtree(c, o)) by {
                if in_subtree(c, o) {
                    lemma_subtree_parent(c, o);
                    assert((o - 1) / 2 == i);
                    lemma_subtree_parent(c, i as int);
                }
            }
            assert(!in_subtree(c, i as int)) by {
                if in_subtree(c, i as int) {
                    lemma_subtree_parent(c, i as int);
                }
            }
            assert forall|p: int|
                0 <= p < s.len() && !(in_subtree(i as int, p) && p < n) implies #[trigger] u[p]
                == s[p] by {
                if in_subtree(c, p) && p < n {
                    lemma_subtree_of_child(i as int, c, p);
                }
            }
            assert forall|k: int| in_subtree(i as int, k) && k < n implies #[trigger] heap_at(
                u,
                n as int,
                k,
            ) by {
                if k == i {
                    if o < n {
                        assert(u[o] == t[o]);
                    }
                } else if !in_subtree(c, k) {
                    lemma_subtree_parent(i as int, k);
                    assert(heap_at(s, n as int, k));
                    assert(u[k] == s[k]);
                    if 2 * k + 1 < n {
                        if in_subtree(c, 2 * k + 1) {
                            lemma_subtree_parent(c, 2 * k + 1);
                            assert((2 * k + 1 - 1) / 2 == k);
                        }
                        assert(u[2 * k + 1] == s[2 * k + 1]);
                    }
                    if 2 * k + 2 < n {
                        if in_subtree(c, 2 * k + 2) {
                            lemma_subtree_parent(c, 2 * k + 2);
                            assert((2 * k + 2 - 1) / 2 == k);
                        }
                        assert(u[2 * k + 2] == s[2 * k + 2]);
                    }
                }
            }
            assert forall|p: int| in_subtree(i as int, p) && p != i && p < n implies leq(
                #[trigger] u[p],
                s[p],
            ) by {
                lemma_total(s[p], s[p]);
                if p != c && in_subtree(c, p) {
                    assert(leq(u[p], t[p]));
                }
            }
        }
    } else {
        proof {
            assert forall|p: int| in_subtree(i as int, p) && p != i && p < n implies leq(
                #[trigger] arr@[p],
                s[p],
            ) by {
                lemma_total(s[p], s[p]);
            }
            assert forall|k: int| in_subtree(i as int, k) && k < n implies #[trigger] heap_at(
                arr@,
                n as int,
                k,
            ) by {
                if k != i {
                    assert(heap_at(s, n as int, k));
                }
            }
        }
    }
}

/// Sorts `arr` in ascending order with a heap: the slice is first arranged
/// into a max-heap, then its root is repeatedly exchanged with the last
/// element of the heap, which shrinks by one.
pub fn heap_sort<T: Ord>(arr: &mut [T])
    requires
        obeys_cmp::<T>(),
    ensures
        sorts_to(old(arr)@, final(arr)@),
{
    proof {
        lemma_obeys::<T>();
    }
    if arr.len() <= 1 {
        return;
    }
    let len: usize = arr.len();
    let mut i: usize = len / 2;
    while i > 0
        invariant
            obeys_cmp::<T>(),
            len == arr@.len(),
            i <= len / 2,
            heap_from(arr@, len as int, i as int),
            arr@.to_multiset() == old(arr)@.to_multiset(),
        decreases i,
    {
        i = i - 1;
        let ghost s = arr@;
        proof {
            assert forall|k: int| in_subtree(i as int, k) && k != i && k < len implies #[trigger] heap_at(
                s,
                len as int,
                k,
            ) by {
                lemma_subtree_parent(i as int, k);
            }
        }
        heapify(arr, len, i);
        proof {
            let u = arr@;
            assert forall|k: int| i <= k < len implies #[trigger] heap_at(u, len as int, k) by {
                if !in_subtree(i as int, k) {
                    assert(k != i);
                    assert(heap_at(s, len as int, k));
                    if 2 * k + 1 < len {
                        if in_subtree(i as int, 2 * k + 1) {
                            lemma_subtree_parent(i as int, 2 * k + 1);
                            assert((2 * k + 1 - 1) / 2 == k);
                        }
                        assert(u[2 * k + 1] == s[2 * k + 1]);
                    }
                    if 2 * k + 2 < len {
                        if in_subtree(i as int, 2 * k + 2) {
                            lemma_subtree_parent(i as int, 2 * k + 2);
                            assert((2 * k + 2 - 1) / 2 == k);
                        }
                        assert(u[2 * k + 2] == s[2 * k + 2]);
                    }
                    assert(u[k] == s[k]);
                }
            }
        }
    }
    let mut end: usize = len;
    while end > 1
        invariant
            obeys_cmp::<T>(),
            len == arr@.len(),
            1 <= end <= len,
            heap_from(arr@, end as int, 0),
            forall|a: int, b: int|
                0 <= a < b < len && b >= end ==> leq(#[trigger] arr@[a], #[trigger] arr@[b]),
            arr@.to_multiset() == old(arr)@.to_multiset(),
        decreases end,
    {
        end = end - 1;
        let ghost s = arr@;
        proof {
            lemma_swap_keeps_multiset(s, 0, end as int);
            assert forall|p: int| 0 <= p < end + 1 implies leq(#[trigger] s[p], s[0]) by {
                lemma_heap_root_is_max(s, end + 1, p);
            }
        }
        arr.swap(0, end);
        let ghost t = arr@;
        proof {
            assert forall|k: int| in_subtree(0, k) && k != 0 && k < end implies #[trigger] heap_at(
                t,
                end as int,
                k,
            ) by {
                lemma_subtree_parent(0, k);
                assert(heap_at(s, end + 1, k));
            }
        }
        heapify(arr, end, 0);
        proof {
            let u = arr@;
            assert forall|k: int| 0 <= k < end implies #[trigger] heap_at(u, end as int, k) by {
                lemma_subtree_root(k);
            }
            assert forall|a: int| 0 < a < end implies leq(#[trigger] u[a], t[a]) by {
                lemma_subtree_root(a);
            }
            assert forall|a: int, b: int| 0 <= a < b < len && b >= end implies leq(
                #[trigger] u[a],
                #[trigger] u[b],
            ) by {
                if a >= end {
                } else if b == end {
                    // u[b] is the old root, the greatest of the old heap
                    if a == 0 {
                        if u[0] == t[0] {
                        } else if u[0] == t[1] {
                        } else {
                        }
                    } else {
                        lemma_leq_trans(u[a], t[a], s[0]);
                    }
                } else {
                    assert(leq(s[0], s[b]));
                    if a == 0 {
                        lemma_leq_trans(s[end as int], s[0], s[b]);
                        if u[0] == t[0] {
                        } else if u[0] == t[1] {
                            lemma_leq_trans(s[1], s[0], s[b]);
                        } else {
                            lemma_leq_trans(s[2], s[0], s[b]);
                        }
                    } else {
                        lemma_leq_trans(t[a], s[0], s[b]);
                        lemma_leq_trans(u[a], t[a], s[b]);
                    }
                }
            }
        }
    }
}

/// Rearranging a sequence keeps a property that holds of each of its elements.
proof fn lemma_permutation_keeps_all<T>(a: Seq<T>, b: Seq<T>, pred: spec_fn(T) -> bool)
    requires
        a.to_multiset() == b.to_multiset(),
        forall|k: int| 0 <= k < a.len() ==> pred(#[trigger] a[k]),
    ensures
        forall|k: int| 0 <= k < b.len() ==> pred(#[trigger] b[k]),
{
    broadcast use vstd::seq_lib::group_to_multiset_ensures;

    assert forall|k: int| 0 <= k < b.len() implies pred(#[trigger] b[k]) by {
        assert(b.contains(b[k]));
        assert(b.to_multiset().count(b[k]) > 0);
        assert(a.to_multiset().count(b[k]) > 0);
        assert(a.contains(b[k]));
        let j = choose|j: int| 0 <= j < a.len() && a[j] == b[k];
        assert(pred(a[j]));
    }
}

/// Moves the middle element, the pivot, to its place in sorted order: every
/// element before it is `<=` it and every element after it is `>` it. Returns
/// the pivot's new position.
fn partition<T: Ord>(arr: &mut [T]) -> (p: usize)
    requires
        obeys_cmp::<T>(),
        old(arr)@.len() >= 1,
    ensures
        final(arr)@.len() == old(arr)@.len(),
        final(arr)@.to_multiset() == old(arr)@.to_multiset(),
        p < final(arr)@.len(),
        final(arr)@[p as int] == old(arr)@[old(arr)@.len() as int / 2],
        forall|k: int| 0 <= k < p ==> leq(#[trigger] final(arr)@[k], final(arr)@[p as int]),
        forall|k: int|
            p < k < final(arr)@.len() ==> less(final(arr)@[p as int], #[trigger] final(arr)@[k]),
{
    proof {
        lemma_obeys::<T>();
        lemma_swap_keeps_multiset(arr@, arr@.len() as int / 2, arr@.len() - 1);
    }
    let len: usize = arr.len();
    let pivot_index: usize = len / 2;
    arr.swap(pivot_index, len - 1);
    let ghost pivot = arr@[len - 1];

    let mut i: usize = 0;
    let mut j: usize = 0;
    while j < len - 1
        invariant
            obeys_cmp::<T>(),
            T::obeys_partial_cmp_spec(),
            len == arr@.len(),
            len >= 1,
            i <= j <= len - 1,
            arr@[len - 1] == pivot,
            forall|k: int| 0 <= k < i ==> leq(#[trigger] arr@[k], pivot),
            forall|k: int| i <= k < j ==> less(pivot, #[trigger] arr@[k]),
            arr@.to_multiset() == old(arr)@.to_multiset(),
        decreases len - 1 - j,
    {
        proof {
            lemma_total(arr@[j as int], pivot);
        }
        if arr[j] <= arr[len - 1] {
            proof {
                lemma_swap_keeps_multiset(arr@, i as int, j as int);
            }
            arr.swap(i, j);
            i = i + 1;
        }
        j = j + 1;
    }
    proof {
        lemma_swap_keeps_multiset(arr@, i as int, len - 1);
        lemma_total(pivot, pivot);
    }
    arr.swap(i, len - 1);
    i
}

/// Sorts `arr` in ascending order by quick sort: the slice is partitioned
/// around its middle element, then the parts on either side of it are sorted
/// in turn.
pub fn quick_sort<T: Ord>(arr: &mut [T])
    requires
        obeys_cmp::<T>(),
    ensures
        sorts_to(old(arr)@, final(arr)@),
    decreases old(arr)@.len(),
{
    broadcast use vstd::seq_lib::group_to_multiset_ensures;

    if arr.len() <= 1 {
        return;
    }
    let pivot_index: usize = partition(arr);
    let ghost s = arr@;
    let ghost pivot = s[pivot_index as int];
    let (before, rest) = arr.split_at_mut(pivot_index);
    let (middle, after) = rest.split_at_mut(1);
    let ghost b0 = before@;
    let ghost a0 = after@;
    quick_sort(before);
    quick_sort(after);
    let ghost b1 = before@;
    let ghost a1 = after@;
    let ghost m1 = middle@;
    assert(arr@ =~= b1 + m1 + a1);
    proof {
        vstd::seq_lib::to_multiset_len(b0);
        vstd::seq_lib::to_multiset_len(b1);
        vstd::seq_lib::to_multiset_len(a0);
        vstd::seq_lib::to_multiset_len(a1);
        assert(b0 =~= s.subrange(0, pivot_index as int));
        assert(a0 =~= s.subrange(pivot_index + 1, s.len() as int));
        assert(m1 =~= seq![pivot]);
        lemma_permutation_keeps_all(b0, b1, |x: T| leq(x, pivot));
        lemma_permutation_keeps_all(a0, a1, |x: T| less(pivot, x));
        let r = b1 + m1 + a1;
        assert(s =~= b0 + m1 + a0);
        vstd::seq_lib::lemma_multiset_commutative(b0, m1);
        vstd::seq_lib::lemma_multiset_commutative(b0 + m1, a0);
        vstd::seq_lib::lemma_multiset_commutative(b1, m1);
        vstd::seq_lib::lemma_multiset_commutative(b1 + m1, a1);
        assert forall|x: int, y: int| 0 <= x < y < r.len() implies leq(
            #[trigger] r[x],
            #[trigger] r[y],
        ) by {
            let m = pivot_index as int;
            if y < m {
                assert(leq(b1[x], b1[y]));
            } else if x > m {
                assert(leq(a1[x - m - 1], a1[y - m - 1]));
            } else if x == m {
                assert(less(pivot, a1[y - m - 1]));
                lemma_total(pivot, a1[y - m - 1]);
            } else if y == m {
                assert(leq(b1[x], pivot));
            } else {
                assert(leq(b1[x], pivot));
                assert(less(pivot, a1[y - m - 1]));
                lemma_total(pivot, a1[y - m - 1]);
                lemma_leq_trans(b1[x], pivot, a1[y - m - 1]);
            }
        }
    }
}

/// Cloning a value of `T` yields a value equal to it.
pub open spec fn clone_is_copy<T: Clone>() -> bool {
    forall|a: T, b: T| #[trigger] call_ensures(T::clone, (&a,), b) ==> a == b
}

/// A fresh vector holding clones of `arr[lo..hi]`.
fn copy_range<T: Clone>(arr: &[T], lo: usize, hi: usize) -> (v: Vec<T>)
    requires
        clone_is_copy::<T>(),
        lo <= hi <= arr@.len(),
    ensures
        v@ == arr@.subrange(lo as int, hi as int),
{
    let mut v: Vec<T> = Vec::new();
    let mut k: usize = lo;
    while k < hi
        invariant
            clone_is_copy::<T>(),
            lo <= k <= hi <= arr@.len(),
            v@ == arr@.subrange(lo as int, k as int),
        decreases hi - k,
    {
        let item = arr[k].clone();
        v.push(item);
        k = k + 1;
        assert(v@ =~= arr@.subrange(lo as int, k as int));
    }
    v
}

/// What holds while two sorted runs `left` and `right` are merged into
/// `out`: the first `i` and `j` elements of the runs have been written, in
/// order, to the first `i + j` positions of `out`, and each of those is `<=`
/// every element still to come. Each element taken from `right` is `<` every
/// element left in `left`, so equal elements of `left` come before those of
/// `right`.
pub open spec fn merging<T: PartialOrd>(
    out: Seq<T>,
    left: Seq<T>,
    right: Seq<T>,
    i: int,
    j: int,
) -> bool {
    &&& 0 <= i <= left.len()
    &&& 0 <= j <= right.len()
    &&& out.len() == left.len() + right.len()
    &&& sorted(left)
    &&& sorted(right)
    &&& sorted(out.subrange(0, i + j))
    &&& forall|a: int, b: int| 0 <= a < i + j && i <= b < left.len() ==> leq(#[trigger] out[a], #[trigger] left[b])
    &&& forall|a: int, b: int| 0 <= a < i + j && j <= b < right.len() ==> leq(#[trigger] out[a], #[trigger] right[b])
    &&& out.subrange(0, i + j).to_multiset() == left.subrange(0, i).to_multiset().add(
        right.subrange(0, j).to_multiset(),
    )
    &&& forall|a: int, b: int| 0 <= a < j && i <= b < left.len() ==> less(#[trigger] right[a], #[trigger] left[b])
    &&& forall|x: T| #[trigger] class_of(out.subrange(0, i + j), x) == class_of(left.subrange(0, i), x)
        + class_of(right.subrange(0, j), x)
}

/// Writing the next element of `left` keeps the merge going when it is `<=`
/// every remaining element of `right`.
proof fn lemma_merge_take_left<T: Ord>(out: Seq<T>, left: Seq<T>, right: Seq<T>, i: int, j: int)
    requires
        obeys_cmp::<T>(),
        merging(out, left, right, i, j),
        i < left.len(),
        forall|b: int| j <= b < right.len() ==> leq(left[i], #[trigger] right[b]),
    ensures
        merging(out.update(i + j, left[i]), left, right, i + 1, j),
{
    broadcast use vstd::seq_lib::group_to_multiset_ensures;
    broadcast use vstd::multiset::group_multiset_axioms;

    let o = out.update(i + j, left[i]);
    let k = i + j;
    assert(o.subrange(0, k + 1) =~= out.subrange(0, k).push(left[i]));
    assert(left.subrange(0, i + 1) =~= left.subrange(0, i).push(left[i]));
    assert(o.subrange(0, k + 1).to_multiset() =~= left.subrange(0, i + 1).to_multiset().add(
        right.subrange(0, j).to_multiset(),
    ));
    assert forall|a: int, b: int| 0 <= a < b < k + 1 implies leq(
        #[trigger] o.subrange(0, k + 1)[a],
        #[trigger] o.subrange(0, k + 1)[b],
    ) by {
        assert(out.subrange(0, k)[a] == out[a]);
        if b < k {
            assert(out.subrange(0, k)[b] == out[b]);
        } else {
            assert(leq(out[a], left[i]));
        }
    }
    assert forall|a: int, b: int| 0 <= a < k + 1 && i + 1 <= b < left.len() implies leq(
        #[trigger] o[a],
        #[trigger] left[b],
    ) by {
        if a == k {
            assert(leq(left[i], left[b]));
        } else {
            assert(leq(out[a], left[b]));
        }
    }
    assert forall|x: T| #[trigger] class_of(o.subrange(0, k + 1), x) == class_of(
        left.subrange(0, i + 1),
        x,
    ) + class_of(right.subrange(0, j), x) by {
        let pred = |y: T| equiv(y, x);
        out.subrange(0, k).lemma_filter_push(left[i], pred);
        left.subrange(0, i).lemma_filter_push(left[i], pred);
        assert(class_of(out.subrange(0, k), x) == class_of(left.subrange(0, i), x) + class_of(right.subrange(0, j), x));
        assert(class_of(out.subrange(0, k), x) == out.subrange(0, k).filter(pred));
        assert(class_of(o.subrange(0, k + 1), x) == out.subrange(0, k).push(left[i]).filter(pred));
        assert(class_of(left.subrange(0, i + 1), x) == left.subrange(0, i).push(left[i]).filter(pred));
        if equiv(left[i], x) {
            assert forall|a: int| 0 <= a < j implies !pred(#[trigger] right.subrange(0, j)[a]) by {
                assert(less(right[a], left[i]));
                lemma_total(right[a], left[i]);
                lemma_equiv_trans(right[a], x, left[i]);
                lemma_equiv_trans(left[i], x, x);
                lemma_equiv_trans(x, left[i], x);
            }
            right.subrange(0, j).lemma_all_neg_filter_empty(pred);
            assert(class_of(right.subrange(0, j), x) =~= Seq::<T>::empty());
            assert(class_of(o.subrange(0, k + 1), x) =~= class_of(left.subrange(0, i + 1), x) + class_of(right.subrange(0, j), x));
        }
    }
    assert forall|a: int, b: int| 0 <= a < k + 1 && j <= b < right.len() implies leq(
        #[trigger] o[a],
        #[trigger] right[b],
    ) by {
        if a == k {
            assert(leq(left[i], right[b]));
        } else {
            assert(leq(out[a], right[b]));
        }
    }
}

/// Writing the next element of `right` keeps the merge going when it is `<=`
/// every remaining element of `left`.
proof fn lemma_merge_take_right<T: Ord>(out: Seq<T>, left: Seq<T>, right: Seq<T>, i: int, j: int)
    requires
        obeys_cmp::<T>(),
        merging(out, left, right, i, j),
        j < right.len(),
        forall|b: int| i <= b < left.len() ==> less(right[j], #[trigger] left[b]),
    ensures
        merging(out.update(i + j, right[j]), left, right, i, j + 1),
{
    broadcast use vstd::seq_lib::group_to_multiset_ensures;
    broadcast use vstd::multiset::group_multiset_axioms;

    let o = out.update(i + j, right[j]);
    let k = i + j;
    assert(o.subrange(0, k + 1) =~= out.subrange(0, k).push(right[j]));
    assert(right.subrange(0, j + 1) =~= right.subrange(0, j).push(right[j]));
    assert(o.subrange(0, k + 1).to_multiset() =~= left.subrange(0, i).to_multiset().add(
        right.subrange(0, j + 1).to_multiset(),
    ));
    assert forall|a: int, b: int| 0 <= a < b < k + 1 implies leq(
        #[trigger] o.subrange(0, k + 1)[a],
        #[trigger] o.subrange(0, k + 1)[b],
    ) by {
        assert(out.subrange(0, k)[a] == out[a]);
        if b < k {
            assert(out.subrange(0, k)[b] == out[b]);
        } else {
            assert(leq(out[a], right[j]));
        }
    }
    assert forall|a: int, b: int| 0 <= a < k + 1 && i <= b < left.len() implies leq(
        #[trigger] o[a],
        #[trigger] left[b],
    ) by {
        if a == k {
            lemma_total(left[b], right[j]);
        } else {
            assert(leq(out[a], left[b]));
        }
    }
    assert forall|x: T| #[trigger] class_of(o.subrange(0, k + 1), x) == class_of(
        left.subrange(0, i),
        x,
    ) + class_of(right.subrange(0, j + 1), x) by {
        let pred = |y: T| equiv(y, x);
        out.subrange(0, k).lemma_filter_push(right[j], pred);
        right.subrange(0, j).lemma_filter_push(right[j], pred);
        assert(class_of(out.subrange(0, k), x) == class_of(left.subrange(0, i), x) + class_of(right.subrange(0, j), x));
        assert(class_of(out.subrange(0, k), x) == out.subrange(0, k).filter(pred));
        assert(class_of(o.subrange(0, k + 1), x) == out.subrange(0, k).push(right[j]).filter(pred));
        assert(class_of(right.subrange(0, j + 1), x) == right.subrange(0, j).push(right[j]).filter(pred));
        assert(class_of(o.subrange(0, k + 1), x) =~= class_of(left.subrange(0, i), x) + class_of(right.subrange(0, j + 1), x));
    }
    assert forall|a: int, b: int| 0 <= a < k + 1 && j + 1 <= b < right.len() implies leq(
        #[trigger] o[a],
        #[trigger] right[b],
    ) by {
        if a == k {
            assert(leq(right[j], right[b]));
        } else {
            assert(leq(out[a], right[b]));
        }
    }
}

/// Sorts `arr` in ascending order by merge sort: each half is copied out and
/// sorted, then the two are merged back, taking from the left half on ties.
/// Equal elements keep their order.
pub fn merge_sort<T: Ord + Clone>(arr: &mut [T])
    requires
        obeys_cmp::<T>(),
        clone_is_copy::<T>(),
    ensures
        stably_sorts_to(old(arr)@, final(arr)@),
        sorted(old(arr)@) ==> final(arr)@ == old(arr)@,
    decreases old(arr)@.len(),
{
    proof {
        lemma_obeys::<T>();
    }
    let len: usize = arr.len();
    if len <= 1 {
        return;
    }
    let mid: usize = len / 2;
    let mut left = copy_range(arr, 0, mid);
    let mut right = copy_range(arr, mid, len);
    let ghost left0 = left@;
    let ghost right0 = right@;
    merge_sort(left.as_mut_slice());
    merge_sort(right.as_mut_slice());
    proof {
        vstd::seq_lib::to_multiset_len(left0);
        vstd::seq_lib::to_multiset_len(left@);
        vstd::seq_lib::to_multiset_len(right0);
        vstd::seq_lib::to_multiset_len(right@);
        assert(arr@.subrange(0, 0) =~= Seq::<T>::empty());
        assert(left@.subrange(0, 0) =~= Seq::<T>::empty());
        assert(right@.subrange(0, 0) =~= Seq::<T>::empty());
        broadcast use vstd::seq_lib::group_to_multiset_ensures;
        broadcast use vstd::multiset::group_multiset_axioms;

        assert(Seq::<T>::empty().to_multiset() =~= Multiset::empty());
        assert(left@.len() + right@.len() == len);
        assert(sorted(arr@.subrange(0, 0)));
        assert(arr@.subrange(0, 0).to_multiset() =~= left@.subrange(0, 0).to_multiset().add(
            right@.subrange(0, 0).to_multiset(),
        ));
        assert forall|x: T| #[trigger] class_of(arr@.subrange(0, 0), x) == class_of(
            left@.subrange(0, 0),
            x,
        ) + class_of(right@.subrange(0, 0), x) by {
            assert(Seq::<T>::empty().filter(|y: T| equiv(y, x)) =~= Seq::<T>::empty()) by {
                reveal(Seq::filter);
            }
            assert(Seq::<T>::empty() + Seq::<T>::empty() =~= Seq::<T>::empty());
        }
    }

    let mut i: usize = 0;
    let mut j: usize = 0;
    let mut k: usize = 0;
    while i < left.len() && j < right.len()
        invariant
            obeys_cmp::<T>(),
            T::obeys_partial_cmp_spec(),
            clone_is_copy::<T>(),
            k == i + j,
            len == arr@.len(),
            merging(arr@, left@, right@, i as int, j as int),
        decreases len - k,
    {
        proof {
            lemma_total(left@[i as int], right@[j as int]);
        }
        if left[i] <= right[j] {
            proof {
                assert forall|b: int| j <= b < right@.len() implies leq(
                    left@[i as int],
                    #[trigger] right@[b],
                ) by {
                    lemma_total(right@[j as int], right@[b]);
                    lemma_leq_trans(left@[i as int], right@[j as int], right@[b]);
                }
                lemma_merge_take_left(arr@, left@, right@, i as int, j as int);
            }
            arr[k] = left[i].clone();
            i = i + 1;
        } else {
            proof {
                assert forall|b: int| i <= b < left@.len() implies less(
                    right@[j as int],
                    #[trigger] left@[b],
                ) by {
                    lemma_total(left@[i as int], left@[b]);
                    lemma_leq_trans(right@[j as int], left@[i as int], left@[b]);
                }
                lemma_merge_take_right(arr@, left@, right@, i as int, j as int);
            }
            arr[k] = right[j].clone();
            j = j + 1;
        }
        k = k + 1;
    }
    while i < left.len()
        invariant
            obeys_cmp::<T>(),
            clone_is_copy::<T>(),
            k == i + j,
            i < left@.len() ==> j == right@.len(),
            len == arr@.len(),
            merging(arr@, left@, right@, i as int, j as int),
        decreases len - k,
    {
        proof {
            lemma_merge_take_left(arr@, left@, right@, i as int, j as int);
        }
        arr[k] = left[i].clone();
        i = i + 1;
        k = k + 1;
    }
    while j < right.len()
        invariant
            obeys_cmp::<T>(),
            clone_is_copy::<T>(),
            k == i + j,
            i == left@.len(),
            len == arr@.len(),
            merging(arr@, left@, right@, i as int, j as int),
        decreases len - k,
    {
        proof {
            lemma_merge_take_right(arr@, left@, right@, i as int, j as int);
        }
        arr[k] = right[j].clone();
        j = j + 1;
        k = k + 1;
    }
    proof {
        assert(arr@.subrange(0, len as int) =~= arr@);
        assert(left@.subrange(0, left@.len() as int) =~= left@);
        assert(right@.subrange(0, right@.len() as int) =~= right@);
        assert(old(arr)@ =~= left0 + right0);
        vstd::seq_lib::lemma_multiset_commutative(left0, right0);
        assert forall|x: T| #[trigger] class_of(arr@, x) == class_of(old(arr)@, x) by {
            Seq::filter_distributes_over_add(left0, right0, |y: T| equiv(y, x));
            assert(class_of(left@, x) == class_of(left0, x));
            assert(class_of(right@, x) == class_of(right0, x));
        }
        if sorted(old(arr)@) {
            lemma_stable_sorting_sorted_is_identity(old(arr)@, arr@);
        }
    }
}

} // verus!
