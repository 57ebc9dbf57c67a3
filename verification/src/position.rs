//! Position-finding primitives over an ascending sequence.
//!
//! `from_index` locates the first index whose element is at or after a
//! target; `after_index` locates the first index whose element is strictly
//! after it. Both are binary searches; their specifications
//! [`first_at_or_after`] and [`first_after`] are written as linear scans, so
//! that what each search returns is stated without appeal to sortedness.

use vstd::prelude::*;

use crate::order::{ascending, lemma_order_laws, views_of, TotalOrder};

verus! {

/// The smallest index whose view is at or after `x` (that is, not below
/// `x`), or the length of `ks` if there is none: the index the first
/// element `>= x` would have under any ordering, read off by a scan.
pub open spec fn first_at_or_after<K: TotalOrder>(ks: Seq<K::V>, x: K::V) -> int
    decreases ks.len(),
{
    if ks.len() == 0 {
        0
    } else if !K::below(ks[0], x) {
        0
    } else {
        1 + first_at_or_after::<K>(ks.drop_first(), x)
    }
}

/// The smallest index whose view is strictly after `x`, or the length of
/// `ks` if there is none.
pub open spec fn first_after<K: TotalOrder>(ks: Seq<K::V>, x: K::V) -> int
    decreases ks.len(),
{
    if ks.len() == 0 {
        0
    } else if K::below(x, ks[0]) {
        0
    } else {
        1 + first_after::<K>(ks.drop_first(), x)
    }
}

/// Everything before `first_at_or_after` is below `x`; the element at it,
/// if any, is not.
pub proof fn lemma_first_at_or_after<K: TotalOrder>(ks: Seq<K::V>, x: K::V)
    ensures
        0 <= first_at_or_after::<K>(ks, x) <= ks.len(),
        forall|i: int| 0 <= i < first_at_or_after::<K>(ks, x) ==> K::below(#[trigger] ks[i], x),
        first_at_or_after::<K>(ks, x) < ks.len() ==> !K::below(ks[first_at_or_after::<K>(ks, x)], x),
    decreases ks.len(),
{
    if ks.len() > 0 && K::below(ks[0], x) {
        lemma_first_at_or_after::<K>(ks.drop_first(), x);
        assert forall|i: int| 0 <= i < first_at_or_after::<K>(ks, x) implies K::below(
            #[trigger] ks[i],
            x,
        ) by {
            if i > 0 {
                assert(ks.drop_first()[i - 1] == ks[i]);
            }
        }
    }
}

/// Everything before `first_after` is not after `x`; the element at it, if
/// any, is.
pub proof fn lemma_first_after<K: TotalOrder>(ks: Seq<K::V>, x: K::V)
    ensures
        0 <= first_after::<K>(ks, x) <= ks.len(),
        forall|i: int| 0 <= i < first_after::<K>(ks, x) ==> !K::below(x, #[trigger] ks[i]),
        first_after::<K>(ks, x) < ks.len() ==> K::below(x, ks[first_after::<K>(ks, x)]),
    decreases ks.len(),
{
    if ks.len() > 0 && !K::below(x, ks[0]) {
        lemma_first_after::<K>(ks.drop_first(), x);
        assert forall|i: int| 0 <= i < first_after::<K>(ks, x) implies !K::below(
            x,
            #[trigger] ks[i],
        ) by {
            if i > 0 {
                assert(ks.drop_first()[i - 1] == ks[i]);
            }
        }
    }
}

/// Any index that splits `ks` into a prefix below `x` and a rest not below
/// `x` is `first_at_or_after`.
pub proof fn lemma_at_or_after_agrees<K: TotalOrder>(ks: Seq<K::V>, x: K::V, p: int)
    requires
        0 <= p <= ks.len(),
        forall|i: int| 0 <= i < p ==> K::below(#[trigger] ks[i], x),
        p < ks.len() ==> !K::below(ks[p], x),
    ensures
        p == first_at_or_after::<K>(ks, x),
    decreases ks.len(),
{
    if p == 0 {
    } else {
        assert(K::below(ks[0], x));
        lemma_at_or_after_agrees::<K>(ks.drop_first(), x, p - 1);
    }
}

/// Any index that splits `ks` into a prefix not after `x` and a rest after
/// `x` is `first_after`.
pub proof fn lemma_after_agrees<K: TotalOrder>(ks: Seq<K::V>, x: K::V, p: int)
    requires
        0 <= p <= ks.len(),
        forall|i: int| 0 <= i < p ==> !K::below(x, #[trigger] ks[i]),
        p < ks.len() ==> K::below(x, ks[p]),
    ensures
        p == first_after::<K>(ks, x),
    decreases ks.len(),
{
    if p == 0 {
    } else {
        assert(!K::below(x, ks[0]));
        lemma_after_agrees::<K>(ks.drop_first(), x, p - 1);
    }
}

/// The smallest index in the ascending slice `list` whose element is at or
/// after `target`, or `list.len()` if there is none, by binary search.
pub fn from_index<T: TotalOrder>(list: &[T], target: &T) -> (r: usize)
    requires
        ascending::<T>(views_of(list@)),
    ensures
        r == first_at_or_after::<T>(views_of(list@), target.deep_view()),
{
    let ghost ks = views_of(list@);
    let ghost x = target.deep_view();
    proof {
        lemma_order_laws::<T>();
    }
    let mut lo: usize = 0;
    let mut hi: usize = list.len();
    while lo < hi
        invariant
            0 <= lo <= hi <= list.len(),
            ks == views_of(list@),
            x == target.deep_view(),
            ascending::<T>(ks),
            forall|i: int| 0 <= i < lo ==> T::below(#[trigger] ks[i], x),
            forall|i: int| hi <= i < ks.len() ==> !T::below(#[trigger] ks[i], x),
        decreases hi - lo,
    {
        let mid = lo + (hi - lo) / 2;
        if list[mid].lt(target) {
            proof {
                lemma_order_laws::<T>();
                assert forall|i: int| 0 <= i < mid + 1 implies T::below(#[trigger] ks[i], x) by {
                    if i < mid {
                        assert(T::below(ks[i], ks[mid as int]));
                    }
                }
            }
            lo = mid + 1;
        } else {
            proof {
                lemma_order_laws::<T>();
                assert forall|i: int| mid <= i < ks.len() implies !T::below(#[trigger] ks[i], x) by {
                    if i > mid {
                        assert(T::below(ks[mid as int], ks[i]));
                    }
                }
            }
            hi = mid;
        }
    }
    proof {
        lemma_at_or_after_agrees::<T>(ks, x, lo as int);
    }
    lo
}

/// The smallest index in the ascending slice `list` whose element is
/// strictly after `target`, or `list.len()` if there is none, by binary
/// search.
pub fn after_index<T: TotalOrder>(list: &[T], target: &T) -> (r: usize)
    requires
        ascending::<T>(views_of(list@)),
    ensures
        r == first_after::<T>(views_of(list@), target.deep_view()),
{
    let ghost ks = views_of(list@);
    let ghost x = target.deep_view();
    proof {
        lemma_order_laws::<T>();
    }
    let mut lo: usize = 0;
    let mut hi: usize = list.len();
    while lo < hi
        invariant
            0 <= lo <= hi <= list.len(),
            ks == views_of(list@),
            x == target.deep_view(),
            ascending::<T>(ks),
            forall|i: int| 0 <= i < lo ==> !T::below(x, #[trigger] ks[i]),
            forall|i: int| hi <= i < ks.len() ==> T::below(x, #[trigger] ks[i]),
        decreases hi - lo,
    {
        let mid = lo + (hi - lo) / 2;
        if target.lt(&list[mid]) {
            proof {
                lemma_order_laws::<T>();
                assert forall|i: int| mid <= i < ks.len() implies T::below(x, #[trigger] ks[i]) by {
                    if i > mid {
                        assert(T::below(ks[mid as int], ks[i]));
                    }
                }
            }
            hi = mid;
        } else {
            proof {
                lemma_order_laws::<T>();
                assert forall|i: int| 0 <= i < mid + 1 implies !T::below(x, #[trigger] ks[i]) by {
                    if i < mid {
                        assert(T::below(ks[i], ks[mid as int]));
                    }
                }
            }
            lo = mid + 1;
        }
    }
    proof {
        lemma_after_agrees::<T>(ks, x, lo as int);
    }
    lo
}

/// Where an ascending sequence holds a view, the search for that view lands
/// on it, within bounds.
pub proof fn lemma_found_at<T: TotalOrder>(s: Seq<T>, x: T::V)
    requires
        ascending::<T>(views_of(s)),
        views_of(s).contains(x),
    ensures
        0 <= first_at_or_after::<T>(views_of(s), x) < s.len(),
        views_of(s)[first_at_or_after::<T>(views_of(s), x)] == x,
{
    broadcast use crate::order::group_views_axioms;

    let ks = views_of(s);
    lemma_first_at_or_after::<T>(ks, x);
    lemma_order_laws::<T>();
    let idx = first_at_or_after::<T>(ks, x);
    let w = choose|i: int| 0 <= i < ks.len() && ks[i] == x;
    if w < idx {
        assert(T::below(ks[w], x));
    } else if w > idx {
        if ks[idx] != x {
            assert(T::below(ks[idx], ks[w]));
        }
    }
}

} // verus!
