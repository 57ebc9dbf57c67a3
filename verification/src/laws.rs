//! The algebraic laws of the containers, stated once and proved.
//!
//! Each law is phrased over the spec-level model that the executable
//! contracts speak of — element sequences ordered by view — so that what a
//! caller learns from the contracts composes to these facts.

use vstd::prelude::*;

use crate::iter_ops::{lemma_merge_seq_props, merge_seq, share_no_view, SetOp};
use crate::order::{
    ascending, lemma_ascending_distinct, lemma_ascending_insert, lemma_insert_contains,
    lemma_order_laws, lemma_views_insert, lemma_views_remove, views_of, TotalOrder,
};
use crate::position::{first_after, first_at_or_after, lemma_first_after, lemma_first_at_or_after, lemma_found_at};

verus! {

broadcast use crate::order::group_views_axioms;

/// Inserting an element twice changes membership only once: after the
/// first insertion the view is held and the sequence is still ascending, so
/// a second insertion of any element with that view is a no-op — the
/// executable `insert` returns `true` and then `false`, and a map `insert`
/// of a held key replaces only the value.
pub proof fn lemma_insert_idempotent<T: TotalOrder>(s: Seq<T>, x: T, y: T)
    requires
        ascending::<T>(views_of(s)),
        !views_of(s).contains(x.deep_view()),
        y.deep_view() == x.deep_view(),
    ensures
        ({
            let s1 = s.insert(first_at_or_after::<T>(views_of(s), x.deep_view()), x);
            &&& ascending::<T>(views_of(s1))
            &&& views_of(s1).contains(y.deep_view())
        }),
{
    let ks = views_of(s);
    let xv = x.deep_view();
    let idx = first_at_or_after::<T>(ks, xv);
    lemma_first_at_or_after::<T>(ks, xv);
    lemma_order_laws::<T>();
    if idx < ks.len() {
        assert(ks[idx] != xv);
    }
    lemma_views_insert(s, idx, x);
    lemma_ascending_insert::<T>(ks, xv, idx);
    lemma_insert_contains(ks, idx, xv, y.deep_view());
}

/// The round trip of membership: an inserted view is found; a removed view
/// is absent, so removing it again is the no-op the executable `remove`
/// answers with `false` or `None`.
pub proof fn lemma_round_trip<T: TotalOrder>(s: Seq<T>, x: T)
    requires
        ascending::<T>(views_of(s)),
    ensures
        !views_of(s).contains(x.deep_view()) ==> views_of(
            s.insert(first_at_or_after::<T>(views_of(s), x.deep_view()), x),
        ).contains(x.deep_view()),
        views_of(s).contains(x.deep_view()) ==> !views_of(
            s.remove(first_at_or_after::<T>(views_of(s), x.deep_view())),
        ).contains(x.deep_view()),
{
    let ks = views_of(s);
    let xv = x.deep_view();
    let idx = first_at_or_after::<T>(ks, xv);
    lemma_first_at_or_after::<T>(ks, xv);
    lemma_order_laws::<T>();
    if !ks.contains(xv) {
        if idx < ks.len() {
            assert(ks[idx] != xv);
        }
        lemma_views_insert(s, idx, x);
        lemma_insert_contains(ks, idx, xv, xv);
    } else {
        lemma_found_at(s, xv);
        lemma_views_remove(s, idx);
        ks.remove_ensures(idx);
        let ks2 = ks.remove(idx);
        assert forall|i: int| 0 <= i < ks2.len() implies ks2[i] != xv by {
            let i0: int = if i < idx {
                i
            } else {
                i + 1
            };
            assert(ks2[i] == ks[i0]);
            lemma_ascending_distinct::<T>(ks, i0, idx);
        }
    }
}

/// The union and the intersection of two ascending sequences together hold
/// as many elements as the two sequences do: the inclusion–exclusion law of
/// the merge engine.
pub proof fn lemma_union_intersection_length<T: TotalOrder>(a: Seq<T>, b: Seq<T>)
    requires
        ascending::<T>(views_of(a)),
        ascending::<T>(views_of(b)),
    ensures
        merge_seq(SetOp::Union, a, b).len() + merge_seq(SetOp::Intersection, a, b).len() == a.len()
            + b.len(),
    decreases a.len() + b.len(),
{
    lemma_order_laws::<T>();
    if a.len() > 0 && b.len() > 0 {
        crate::order::lemma_views_skip(a, 1);
        crate::order::lemma_views_skip(b, 1);
        crate::order::lemma_ascending_skip::<T>(views_of(a), 1);
        crate::order::lemma_ascending_skip::<T>(views_of(b), 1);
        assert(views_of(a.drop_first()) =~= views_of(a).drop_first());
        assert(views_of(b.drop_first()) =~= views_of(b).drop_first());
        let ha = a[0].deep_view();
        let hb = b[0].deep_view();
        if T::below(ha, hb) {
            lemma_union_intersection_length(a.drop_first(), b);
            assert(merge_seq(SetOp::Union, a, b) == seq![a[0]] + merge_seq(
                SetOp::Union,
                a.drop_first(),
                b,
            ));
            assert(merge_seq(SetOp::Intersection, a, b) == merge_seq(
                SetOp::Intersection,
                a.drop_first(),
                b,
            ));
        } else if T::below(hb, ha) {
            lemma_union_intersection_length(a, b.drop_first());
            assert(merge_seq(SetOp::Union, a, b) == seq![b[0]] + merge_seq(
                SetOp::Union,
                a,
                b.drop_first(),
            ));
            assert(merge_seq(SetOp::Intersection, a, b) == merge_seq(
                SetOp::Intersection,
                a,
                b.drop_first(),
            ));
        } else {
            lemma_union_intersection_length(a.drop_first(), b.drop_first());
            assert(merge_seq(SetOp::Union, a, b) == seq![a[0]] + merge_seq(
                SetOp::Union,
                a.drop_first(),
                b.drop_first(),
            ));
            assert(merge_seq(SetOp::Intersection, a, b) == seq![a[0]] + merge_seq(
                SetOp::Intersection,
                a.drop_first(),
                b.drop_first(),
            ));
        }
    }
}

/// The intersection and the difference partition the left operand: every
/// view of `a` is in exactly one of the two, and each holds only views of
/// `a`.
pub proof fn lemma_intersection_difference_partition<T: TotalOrder>(a: Seq<T>, b: Seq<T>)
    requires
        ascending::<T>(views_of(a)),
        ascending::<T>(views_of(b)),
    ensures
        forall|v: T::V| #[trigger] views_of(a).contains(v) <==> (views_of(
            merge_seq(SetOp::Intersection, a, b),
        ).contains(v) || views_of(merge_seq(SetOp::Difference, a, b)).contains(v)),
        forall|v: T::V| !(#[trigger] views_of(merge_seq(SetOp::Intersection, a, b)).contains(v)
            && views_of(merge_seq(SetOp::Difference, a, b)).contains(v)),
{
    lemma_merge_seq_props(SetOp::Intersection, a, b);
    lemma_merge_seq_props(SetOp::Difference, a, b);
}

/// The symmetric difference holds exactly the views of the two one-sided
/// differences, and the three parts of the union — both differences and
/// the intersection — are pairwise disjoint.
pub proof fn lemma_symmetric_difference_parts<T: TotalOrder>(a: Seq<T>, b: Seq<T>)
    requires
        ascending::<T>(views_of(a)),
        ascending::<T>(views_of(b)),
    ensures
        forall|v: T::V| #[trigger] views_of(merge_seq(SetOp::SymmetricDifference, a, b)).contains(
            v,
        ) <==> (views_of(merge_seq(SetOp::Difference, a, b)).contains(v) || views_of(
            merge_seq(SetOp::Difference, b, a),
        ).contains(v)),
        forall|v: T::V| !(#[trigger] views_of(merge_seq(SetOp::Difference, a, b)).contains(v)
            && views_of(merge_seq(SetOp::Difference, b, a)).contains(v)),
        forall|v: T::V| !(#[trigger] views_of(merge_seq(SetOp::Difference, a, b)).contains(v)
            && views_of(merge_seq(SetOp::Intersection, a, b)).contains(v)),
        forall|v: T::V| !(#[trigger] views_of(merge_seq(SetOp::Difference, b, a)).contains(v)
            && views_of(merge_seq(SetOp::Intersection, a, b)).contains(v)),
{
    lemma_merge_seq_props(SetOp::SymmetricDifference, a, b);
    lemma_merge_seq_props(SetOp::Difference, a, b);
    lemma_merge_seq_props(SetOp::Difference, b, a);
    lemma_merge_seq_props(SetOp::Intersection, a, b);
}

/// Two ascending sequences are disjoint exactly when their merged
/// intersection is empty.
pub proof fn lemma_disjoint_iff_empty_intersection<T: TotalOrder>(a: Seq<T>, b: Seq<T>)
    requires
        ascending::<T>(views_of(a)),
        ascending::<T>(views_of(b)),
    ensures
        share_no_view(a, b) <==> merge_seq(SetOp::Intersection, a, b).len() == 0,
{
    lemma_merge_seq_props(SetOp::Intersection, a, b);
    let m = merge_seq(SetOp::Intersection, a, b);
    if m.len() > 0 {
        assert(views_of(m).contains(views_of(m)[0]));
        assert(views_of(a).contains(views_of(m)[0]) && views_of(b).contains(views_of(m)[0]));
    }
    if m.len() == 0 {
        assert forall|v: T::V| !(#[trigger] views_of(a).contains(v) && #[trigger] views_of(
            b,
        ).contains(v)) by {
            if views_of(a).contains(v) && views_of(b).contains(v) {
                assert(views_of(m).contains(v));
            }
        }
    }
}


/// Skipping an ascending stream past `t` keeps exactly its views above `t`.
pub proof fn lemma_skip_keeps_above<T: TotalOrder>(s: Seq<T>, t: T::V)
    requires
        ascending::<T>(views_of(s)),
    ensures
        forall|v: T::V| #[trigger] views_of(
            s.skip(first_after::<T>(views_of(s), t)),
        ).contains(v) <==> (views_of(s).contains(v) && T::below(t, v)),
{
    lemma_order_laws::<T>();
    let vs = views_of(s);
    let n = first_after::<T>(vs, t);
    lemma_first_after::<T>(vs, t);
    crate::order::lemma_views_skip(s, n);
    assert(views_of(s.skip(n)) =~= vs.skip(n));
    assert forall|v: T::V| #[trigger] views_of(s.skip(n)).contains(v) <==> (vs.contains(v)
        && T::below(t, v)) by {
        if views_of(s.skip(n)).contains(v) {
            let i = choose|i: int| 0 <= i < vs.skip(n).len() && vs.skip(n)[i] == v;
            assert(vs[i + n] == v);
            if i > 0 {
                assert(T::below(vs[n], vs[i + n]));
            }
            assert(T::below(t, v));
        }
        if vs.contains(v) && T::below(t, v) {
            let w = choose|w: int| 0 <= w < vs.len() && vs[w] == v;
            assert(w >= n) by {
                if w < n {
                    assert(!T::below(t, vs[w]));
                }
            }
            assert(vs.skip(n)[w - n] == v);
        }
    }
}

/// Skipping both streams past `t` before merging keeps exactly the merged
/// views above `t` — the whole merge may be skipped ahead without losing or
/// gaining anything else.
pub proof fn lemma_merge_skip_past<T: TotalOrder>(op: SetOp, a: Seq<T>, b: Seq<T>, t: T::V)
    requires
        ascending::<T>(views_of(a)),
        ascending::<T>(views_of(b)),
    ensures
        ({
            let a2 = a.skip(first_after::<T>(views_of(a), t));
            let b2 = b.skip(first_after::<T>(views_of(b), t));
            &&& ascending::<T>(views_of(merge_seq(op, a2, b2)))
            &&& forall|v: T::V| #[trigger] views_of(merge_seq(op, a2, b2)).contains(v) <==> (
            views_of(merge_seq(op, a, b)).contains(v) && T::below(t, v))
        }),
{
    let na = first_after::<T>(views_of(a), t);
    let nb = first_after::<T>(views_of(b), t);
    lemma_first_after::<T>(views_of(a), t);
    lemma_first_after::<T>(views_of(b), t);
    let a2 = a.skip(na);
    let b2 = b.skip(nb);
    crate::order::lemma_views_skip(a, na);
    crate::order::lemma_views_skip(b, nb);
    crate::order::lemma_ascending_skip::<T>(views_of(a), na);
    crate::order::lemma_ascending_skip::<T>(views_of(b), nb);
    assert(views_of(a2) =~= views_of(a).skip(na));
    assert(views_of(b2) =~= views_of(b).skip(nb));
    lemma_skip_keeps_above(a, t);
    lemma_skip_keeps_above(b, t);
    lemma_merge_seq_props(op, a2, b2);
    lemma_merge_seq_props(op, a, b);
}

} // verus!
